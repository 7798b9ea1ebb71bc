//! Laws of sorting a selection.

use vstd::prelude::*;
use crate::editor::cursor;
use crate::editor::refs;
use crate::editor::state;
use crate::editor::state::EdV;
use crate::fold;
use crate::lines;
use crate::mode;
use crate::strs;
use crate::text;

verus! {

/// The items of the first `n` lines that are indented by `lvl`: the item's
/// line, and that line with those after it up to the next item.
pub open spec fn items_of(
    ls: Seq<Seq<char>>,
    lvl: int,
    n: int,
) -> Seq<(Seq<char>, Seq<Seq<char>>)>
    decreases n,
{
    if n <= 0 {
        Seq::empty()
    } else {
        let g = items_of(ls, lvl, n - 1);
        let l = ls[n - 1];
        if fold::level(l) == lvl {
            g.push((l, seq![l]))
        } else if g.len() > 0 {
            g.update(g.len() - 1, (g.last().0, g.last().1.push(l)))
        } else {
            g
        }
    }
}

/// The lines of items, one item after the other.
pub open spec fn lines_in(g: Seq<(Seq<char>, Seq<Seq<char>>)>) -> Seq<Seq<char>>
    decreases g.len(),
{
    if g.len() == 0 {
        Seq::empty()
    } else {
        lines_in(g.drop_last()) + g.last().1
    }
}

/// An item of a level: its own line, then lines of other levels.
pub open spec fn headed(x: (Seq<char>, Seq<Seq<char>>), lvl: int) -> bool {
    &&& x.1.len() > 0
    &&& x.1[0] == x.0
    &&& fold::level(x.0) == lvl
    &&& forall|j: int| 0 < j < x.1.len() ==> fold::level(#[trigger] x.1[j]) != lvl
}

spec fn as_text(x: (Seq<char>, Seq<Seq<char>>)) -> (Seq<char>, Seq<char>) {
    (x.0, lines::stacked(x.1))
}

spec fn as_texts(g: Seq<(Seq<char>, Seq<Seq<char>>)>) -> Seq<(Seq<char>, Seq<char>)> {
    Seq::new(g.len(), |i: int| as_text(g[i]))
}

proof fn lemma_items(ls: Seq<Seq<char>>, lvl: int, n: int)
    requires
        0 < n <= ls.len(),
        fold::level(ls[0]) == lvl,
    ensures
        items_of(ls, lvl, n).len() > 0,
        lines_in(items_of(ls, lvl, n)) == ls.take(n),
        forall|i: int|
            0 <= i < items_of(ls, lvl, n).len() ==> headed(#[trigger] items_of(ls, lvl, n)[i], lvl),
        refs::item_groups(ls, lvl, n) == as_texts(items_of(ls, lvl, n)),
    decreases n,
{
    reveal_strlit("\n");
    assert("\n"@ =~= seq!['\n']);
    let l = ls[n - 1];
    let h = items_of(ls, lvl, n);
    let one: (Seq<char>, Seq<Seq<char>>) = (l, seq![l]);
    assert(l + "\n"@ =~= l.push('\n'));
    assert(lines::stacked(seq![l]) =~= l.push('\n')) by {
        assert(seq![l].drop_last() =~= Seq::empty());
        assert(lines::stacked(Seq::<Seq<char>>::empty()) =~= Seq::empty());
    }
    if n == 1 {
        let none = Seq::<(Seq<char>, Seq<Seq<char>>)>::empty();
        assert(items_of(ls, lvl, 0) == none);
        assert(h == none.push(one));
        assert(none.push(one).drop_last() =~= none);
        assert(lines_in(none) =~= Seq::empty());
        assert(lines_in(h) =~= ls.take(1));
        assert(headed(one, lvl));
        assert(refs::item_groups(ls, lvl, 0) =~= Seq::empty());
        assert(refs::item_groups(ls, lvl, 1) =~= as_texts(h));
    } else {
        lemma_items(ls, lvl, n - 1);
        let g = items_of(ls, lvl, n - 1);
        assert(ls.take(n) =~= ls.take(n - 1).push(l));
        if fold::level(l) == lvl {
            assert(h == g.push(one));
            assert(h.drop_last() =~= g);
            assert(lines_in(h) =~= ls.take(n));
            assert(headed(one, lvl));
            assert forall|i: int| 0 <= i < h.len() implies headed(#[trigger] h[i], lvl) by {
                if i < g.len() {
                    assert(h[i] == g[i]);
                }
            }
            assert(refs::item_groups(ls, lvl, n) =~= as_texts(h));
        } else {
            let x = g.last();
            let y = (x.0, x.1.push(l));
            assert(h == g.update(g.len() - 1, y));
            assert(h.drop_last() =~= g.drop_last());
            assert(lines_in(h) =~= lines_in(g).push(l));
            assert(headed(g[g.len() - 1], lvl));
            assert forall|j: int| 0 < j < y.1.len() implies fold::level(#[trigger] y.1[j])
                != lvl by {
                if j < x.1.len() {
                    assert(y.1[j] == x.1[j]);
                }
            }
            assert(headed(y, lvl));
            assert forall|i: int| 0 <= i < h.len() implies headed(#[trigger] h[i], lvl) by {
                if i < g.len() - 1 {
                    assert(h[i] == g[i]);
                }
            }
            assert(x.1.push(l).drop_last() =~= x.1);
            assert(lines::stacked(y.1) =~= lines::stacked(x.1) + l + "\n"@);
            let t = refs::item_groups(ls, lvl, n - 1);
            assert(t.last() == as_text(x));
            assert(refs::item_groups(ls, lvl, n) == t.update(
                t.len() - 1,
                (t.last().0, t.last().1 + l + "\n"@),
            ));
            assert(refs::item_groups(ls, lvl, n) =~= as_texts(h));
        }
    }
}

proof fn lemma_slot_texts(g: Seq<(Seq<char>, Seq<Seq<char>>)>, x: Seq<char>, k: int)
    ensures
        refs::slot(as_texts(g), x, k) == refs::slot(g, x, k),
    decreases g.len() - k,
{
    if 0 <= k < g.len() && strs::ordered(g[k].0, x) {
        lemma_slot_texts(g, x, k + 1);
    }
}

proof fn lemma_sorted_texts(g: Seq<(Seq<char>, Seq<Seq<char>>)>, n: int)
    requires
        0 <= n <= g.len(),
    ensures
        refs::sorted_items(as_texts(g), n) == as_texts(refs::sorted_items(g, n)),
    decreases n,
{
    if n > 0 {
        lemma_sorted_texts(g, n - 1);
        let s = refs::sorted_items(g, n - 1);
        let x = g[n - 1];
        refs::lemma_slot(s, x.0, 0);
        lemma_slot_texts(s, x.0, 0);
        let k = refs::slot(s, x.0, 0);
        assert(as_texts(g)[n - 1] == as_text(x));
        assert(as_texts(s.insert(k, x)) =~= as_texts(s).insert(k, as_text(x)));
    } else {
        assert(as_texts(refs::sorted_items(g, n)) =~= Seq::empty());
    }
}

proof fn lemma_bodies(g: Seq<(Seq<char>, Seq<Seq<char>>)>, n: int)
    requires
        0 <= n <= g.len(),
    ensures
        refs::bodies(as_texts(g), n) == lines::stacked(lines_in(g.take(n))),
    decreases n,
{
    if n > 0 {
        lemma_bodies(g, n - 1);
        assert(g.take(n).drop_last() =~= g.take(n - 1));
        lines::lemma_stacked_add(lines_in(g.take(n - 1)), g[n - 1].1);
        assert(as_texts(g)[n - 1] == as_text(g[n - 1]));
    } else {
        assert(g.take(0) =~= Seq::empty());
    }
}

proof fn lemma_lines_in_add(
    a: Seq<(Seq<char>, Seq<Seq<char>>)>,
    b: Seq<(Seq<char>, Seq<Seq<char>>)>,
)
    ensures
        lines_in(a + b) == lines_in(a) + lines_in(b),
    decreases b.len(),
{
    if b.len() == 0 {
        assert(a + b =~= a);
        assert(lines_in(a + b) =~= lines_in(a) + lines_in(b));
    } else {
        lemma_lines_in_add(a, b.drop_last());
        assert((a + b).drop_last() =~= a + b.drop_last());
        assert(lines_in(a + b) =~= lines_in(a) + lines_in(b));
    }
}

/// Sorted items hold the same lines, each as often.
proof fn lemma_same_lines(g: Seq<(Seq<char>, Seq<Seq<char>>)>, n: int)
    requires
        0 <= n <= g.len(),
    ensures
        lines_in(refs::sorted_items(g, n)).to_multiset() == lines_in(g.take(n)).to_multiset(),
    decreases n,
{
    if n > 0 {
        lemma_same_lines(g, n - 1);
        let s = refs::sorted_items(g, n - 1);
        let x = g[n - 1];
        refs::lemma_slot(s, x.0, 0);
        let k = refs::slot(s, x.0, 0);
        let one = seq![x];
        assert(one.drop_last() =~= Seq::empty());
        assert(lines_in(one.drop_last()) =~= Seq::empty());
        assert(lines_in(one) =~= x.1);
        assert(s =~= s.take(k) + s.skip(k));
        assert(s.insert(k, x) =~= s.take(k) + one + s.skip(k));
        lemma_lines_in_add(s.take(k), s.skip(k));
        lemma_lines_in_add(s.take(k) + one, s.skip(k));
        lemma_lines_in_add(s.take(k), one);
        let a = lines_in(s.take(k));
        let b = lines_in(s.skip(k));
        vstd::seq_lib::lemma_multiset_commutative(a, b);
        vstd::seq_lib::lemma_multiset_commutative(a + x.1, b);
        vstd::seq_lib::lemma_multiset_commutative(a, x.1);
        assert(g.take(n).drop_last() =~= g.take(n - 1));
        vstd::seq_lib::lemma_multiset_commutative(lines_in(g.take(n - 1)), x.1);
        assert(lines_in(s.insert(k, x)).to_multiset() =~= lines_in(s).to_multiset().add(
            x.1.to_multiset(),
        ));
    } else {
        assert(g.take(0) =~= Seq::empty());
    }
}

/// What a selection is sorted to.
proof fn lemma_sorted_lines(ls: Seq<Seq<char>>)
    requires
        ls.len() > 0,
    ensures
        ({
            let g = items_of(ls, fold::level(ls[0]), ls.len() as int);
            let s = lines_in(refs::sorted_items(g, g.len() as int));
            &&& refs::sorted_lines(ls) == lines::stacked(s)
            &&& s.to_multiset() == ls.to_multiset()
            &&& s.len() == ls.len()
        }),
{
    let n = ls.len() as int;
    let lvl = fold::level(ls[0]);
    lemma_items(ls, lvl, n);
    let g = items_of(ls, lvl, n);
    let m = g.len() as int;
    let r = refs::sorted_items(g, m);
    lemma_sorted_texts(g, m);
    refs::law_sort_orders(g, m);
    lemma_bodies(r, m);
    assert(r.take(m) =~= r);
    assert(g.take(m) =~= g);
    assert(ls.take(n) =~= ls);
    lemma_same_lines(g, m);
    lines_in(r).to_multiset_ensures();
    ls.to_multiset_ensures();
}

proof fn lemma_one_line(t: Seq<char>, k: int)
    requires
        0 <= k < lines::line_count(t),
        lines::line_raw(t, k).len() > 0,
        lines::line_raw(t, k).last() == '\n',
    ensures
        lines::one_line(lines::line_text(t, k)),
{
    let l = lines::line_text(t, k);
    let s = lines::line_start(t, k);
    lines::lemma_line_raw(t, k);
    assert(l.push('\n') =~= lines::line_raw(t, k));
    assert forall|i: int| 0 <= i < l.len() implies !#[trigger] lines::is_break(
        l.push('\n'),
        i,
    ) by {
        assert(l.push('\n')[i] == t[s + i]);
        assert(l.push('\n')[i + 1] == t[s + i + 1]);
        lines::lemma_line_start(t, k);
        lines::lemma_line_start(t, k + 1);
        lines::lemma_breaks_mono(t, s, s + i);
        assert(lines::breaks(t, s + i + 1) < k + 1);
        assert(!lines::is_break(t, s + i));
    }
}

/// The lines `l1..=l2`, and the one before them, end in a line feed.
pub open spec fn line_fed(t: Seq<char>, l1: int, l2: int) -> bool {
    forall|k: int|
        0 <= k && l1 - 1 <= k <= l2 ==> (#[trigger] lines::line_raw(t, k)).len() > 0
            && lines::line_raw(t, k).last() == '\n'
}

proof fn lemma_contained(a: Seq<Seq<char>>, b: Seq<Seq<char>>, i: int)
    requires
        a.to_multiset() == b.to_multiset(),
        0 <= i < a.len(),
    ensures
        b.contains(a[i]),
{
    a.to_multiset_ensures();
    b.to_multiset_ensures();
    assert(a.contains(a[i]));
    assert(a.to_multiset().count(a[i]) > 0);
}

/// A selection that is sorted holds the same lines as before, each as often:
/// its items, those indented as its first line, come in ascending order, each
/// followed by what stood between it and the next one, and the lines outside
/// the selection stay as they are. A line that another break than a line feed
/// ends gets a line feed too, so such lines are left out here.
pub proof fn law_sort_keeps_lines(s: EdV)
    requires
        mode::visual(s.mode),
        0 <= s.top_line() <= s.bottom_line(),
        s.bottom_line() + 1 < s.line_count(),
        line_fed(s.buf.text, s.top_line(), s.bottom_line()),
    ensures
        ({
            let (l1, l2) = (s.top_line(), s.bottom_line());
            let ls = s.lines_of(l1, l2);
            let g = items_of(ls, fold::level(ls[0]), ls.len() as int);
            let o = refs::sorted_items(g, g.len() as int);
            let r = s.sort_selected();
            &&& r.line_count() == s.line_count()
            &&& forall|k: int|
                0 <= k < l1 || l2 < k < s.line_count() ==> #[trigger] r.line_text(k)
                    == s.line_text(k)
            &&& r.lines_of(l1, l2).to_multiset() == ls.to_multiset()
            &&& r.lines_of(l1, l2) == lines_in(o)
            &&& lines_in(g) == ls
            &&& forall|i: int|
                0 <= i < o.len() ==> headed(#[trigger] o[i], fold::level(ls[0])) && g.contains(o[i])
            &&& forall|i: int, j: int|
                0 <= i <= j < o.len() ==> #[trigger] strs::ordered(o[i].0, o[j].0)
        }),
{
    reveal(EdV::sort_selected);
    let (l1, l2) = (s.top_line(), s.bottom_line());
    let t = s.buf.text;
    let ls = s.lines_of(l1, l2);
    let n = ls.len() as int;
    let lvl = fold::level(ls[0]);
    let g = items_of(ls, lvl, n);
    let m = g.len() as int;
    let o = refs::sorted_items(g, m);
    lemma_items(ls, lvl, n);
    lemma_sorted_lines(ls);
    refs::law_sort_orders(g, m);
    assert(ls.take(n) =~= ls);
    assert(g.take(m) =~= g);
    assert forall|i: int| 0 <= i < o.len() implies headed(#[trigger] o[i], lvl) && g.contains(
        o[i],
    ) by {
        o.to_multiset_ensures();
        g.to_multiset_ensures();
        assert(o.contains(o[i]));
        assert(o.to_multiset().count(o[i]) > 0);
        assert(g.contains(o[i]));
        let j = choose|j: int| 0 <= j < g.len() && g[j] == o[i];
        assert(headed(g[j], lvl));
    }
    let ns = lines_in(o);
    assert forall|i: int| 0 <= i < ns.len() implies #[trigger] lines::one_line(ns[i]) by {
        lemma_contained(ns, ls, i);
        let j = choose|j: int| 0 <= j < ls.len() && ls[j] == ns[i];
        assert(lines::line_raw(t, l1 + j).len() > 0);
        lemma_one_line(t, l1 + j);
        assert(ls[j] == lines::line_text(t, l1 + j));
    }
    let p = lines::line_start(t, l1);
    let q = lines::line_start(t, l2 + 1);
    assert(lines::line_raw(t, l2).len() > 0);
    lines::lemma_line_raw(t, l2);
    assert(t[q - 1] == lines::line_raw(t, l2).last());
    if l1 > 0 {
        assert(lines::line_raw(t, l1 - 1).len() > 0);
        lines::lemma_line_raw(t, l1 - 1);
        assert(t[p - 1] == lines::line_raw(t, l1 - 1).last());
    }
    lines::lemma_replaced(t, l1, l2 + 1, ns);
    let u = t.take(p) + lines::stacked(ns) + t.skip(q);
    cursor::lemma_line_off(t, l1);
    cursor::lemma_line_off(t, l2 + 1);
    lines::lemma_line_start(t, l1);
    lines::lemma_line_start(t, l2 + 1);
    lines::lemma_line_start_mono(t, l1, l2 + 1);
    text::lemma_at_off(t, p);
    text::lemma_at_off(t, q);
    text::lemma_off_mono(t, 0, p);
    text::lemma_off_mono(t, p, q);
    let r = s.sort_selected();
    assert(state::legal(t, text::off(t, p)) == text::off(t, p));
    assert(state::legal(t, text::off(t, q)) == text::off(t, q));
    assert(r.buf.text == u);
    assert forall|k: int| 0 <= k < l1 || l2 < k < s.line_count() implies #[trigger] r.line_text(k)
        == s.line_text(k) by {
        if k > l2 {
            assert(lines::line_text(u, k - (l2 + 1 - l1) + ns.len()) == lines::line_text(t, k));
        }
    }
    assert forall|i: int| 0 <= i < n implies r.lines_of(l1, l2)[i] == #[trigger] ns[i] by {
        assert(lines::line_text(u, l1 + i) == ns[i]);
    }
    assert(r.lines_of(l1, l2) =~= ns);
}

} // verus!
