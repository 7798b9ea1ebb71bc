//! Laws of the folds when the text is edited.

use vstd::prelude::*;
use crate::editor::state;
use crate::editor::state::EdV;
use crate::fold;
use crate::fold::FoldsV;
use crate::lines;
use crate::text;

verus! {

/// A line starts where the text does, or after a break that a line feed at its
/// start would not become part of.
pub open spec fn clean_start(t: Seq<char>, k: int) -> bool {
    k == 0 || t[lines::line_start(t, k) - 1] != '\r'
}

proof fn lemma_head(t: Seq<char>, k: int)
    requires
        0 <= k < lines::line_count(t),
    ensures
        state::legal(t, lines::line_off(t, k)) == lines::line_off(t, k),
        text::at(t, lines::line_off(t, k)) == lines::line_start(t, k),
        lines::line_at(t, lines::line_off(t, k)) == k,
{
    lines::lemma_line_start(t, k);
    text::lemma_at_off(t, lines::line_start(t, k));
    text::lemma_off_mono(t, 0, lines::line_start(t, k));
    text::lemma_off_mono(t, lines::line_start(t, k), t.len() as int);
}

proof fn lemma_stacked_end(ls: Seq<Seq<char>>)
    ensures
        lines::stacked(ls).len() == 0 || lines::stacked(ls).last() == '\n',
{
}

/// When the lines `k..m` are replaced by others, or lines are put in or taken
/// out there, each closed fold outside them stays closed at its line, wherever
/// that line now is.
pub proof fn law_folds_stay(s: EdV, k: int, m: int, ls: Seq<Seq<char>>)
    requires
        0 <= k <= m < s.line_count(),
        clean_start(s.buf.text, k),
        forall|i: int| 0 <= i < ls.len() ==> #[trigger] lines::one_line(ls[i]),
        s.line_count() + ls.len() <= usize::MAX,
    ensures
        ({
            let t = s.buf.text;
            let e = s.edit(lines::line_off(t, k), lines::line_off(t, m), lines::stacked(ls));
            &&& forall|i: int|
                0 <= i < k ==> #[trigger] e.line_text(i) == s.line_text(i)
                    && e.folds.closed.contains(i) == s.folds.closed.contains(i)
            &&& forall|i: int|
                m <= i < s.line_count() ==> #[trigger] s.line_text(i) == e.line_text(
                    i - (m - k) + ls.len(),
                ) && (s.folds.closed.contains(i) ==> e.folds.closed.contains(
                    i - (m - k) + ls.len(),
                ))
        }),
{
    reveal(FoldsV::follow);
    let t = s.buf.text;
    let r = lines::stacked(ls);
    let (lo, hi) = (lines::line_off(t, k), lines::line_off(t, m));
    lemma_head(t, k);
    lemma_head(t, m);
    lemma_stacked_end(ls);
    lines::lemma_line_start_mono(t, k, m);
    lines::lemma_line_start(t, k);
    lines::lemma_line_start(t, m);
    text::lemma_off_mono(t, lines::line_start(t, k), lines::line_start(t, m));
    lines::lemma_replaced(t, k, m, ls);
    let e = s.edit(lo, hi, r);
    let u = t.take(lines::line_start(t, k)) + r + t.skip(lines::line_start(t, m));
    assert(e.buf.text == u);
    let delta = ls.len() - (m - k);
    assert(fold::last_kept(t, lo, hi, r) == k - 1);
    assert(e.folds == s.folds.shifted(k - 1, delta));
    assert forall|i: int| 0 <= i < k implies #[trigger] e.line_text(i) == s.line_text(i)
        && e.folds.closed.contains(i) == s.folds.closed.contains(i) by {
        assert(lines::line_text(u, i) == lines::line_text(t, i));
        if delta != 0 {
            if s.folds.closed.contains(i) {
                assert(fold::moved_to(i, k - 1, delta) == Some(i));
            }
            if e.folds.closed.contains(i) {
                let x = choose|x: int| #[trigger]
                    s.folds.closed.contains(x) && fold::moved_to(x, k - 1, delta) == Some(i);
                assert(x == i);
            }
        }
    }
    assert forall|i: int| m <= i < s.line_count() implies #[trigger] s.line_text(i)
        == e.line_text(i - (m - k) + ls.len()) && (s.folds.closed.contains(i)
        ==> e.folds.closed.contains(i - (m - k) + ls.len())) by {
        assert(lines::line_text(u, i - (m - k) + ls.len()) == lines::line_text(t, i));
        if delta != 0 && s.folds.closed.contains(i) {
            assert(fold::moved_to(i, k - 1, delta) == Some(i + delta));
        }
    }
}

/// An edit within a line moves no fold.
pub proof fn law_folds_stay_within_line(s: EdV, k: int, a: int, b: int, r: Seq<char>)
    requires
        0 <= k < s.line_count(),
        0 <= a < b <= s.line_text(k).len(),
        r.len() > 0,
        forall|i: int| 0 <= i < r.len() ==> lines::plain(#[trigger] r[i]),
        forall|i: int| a <= i < b ==> lines::plain(#[trigger] s.line_text(k)[i]),
    ensures
        ({
            let o = lines::line_off(s.buf.text, k);
            let l = s.line_text(k);
            s.edit(o + text::off(l, a), o + text::off(l, b), r).folds == s.folds
        }),
{
    reveal(FoldsV::follow);
    let t = s.buf.text;
    let l = s.line_text(k);
    let p = lines::line_start(t, k);
    let o = lines::line_off(t, k);
    lines::lemma_line_raw(t, k);
    lines::lemma_within_line(t, k, a, b, r);
    assert(text::off(l, a) == text::off(t, p + a) - o);
    assert(text::off(l, b) == text::off(t, p + b) - o);
    text::lemma_at_off(t, p + a);
    text::lemma_at_off(t, p + b);
    text::lemma_off_mono(t, 0, p + a);
    text::lemma_off_mono(t, p + a, p + b);
    text::lemma_off_mono(t, p + b, t.len() as int);
    assert(state::legal(t, text::off(t, p + a)) == text::off(t, p + a));
    assert(state::legal(t, text::off(t, p + b)) == text::off(t, p + b));
}

} // verus!
