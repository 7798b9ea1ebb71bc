//! What is done to a selection: laws of the commands of Visual mode.

use vstd::prelude::*;
use vstd::string::*;
use crate::chars;
use crate::cols;
use crate::editor::cursor;
use crate::editor::edits;
use crate::editor::ops;
use crate::editor::state;
use crate::editor::state::EdV;
use crate::editor::substitute;
use crate::editor::visual;
use crate::editor::visual::CaseOp;
use crate::lines;
use crate::register::{YankKind, YankV};
use crate::strs;
use crate::text;

verus! {

/// The first and the last character of a selection by character, whichever
/// end the cursor is at.
pub open spec fn selects(s: EdV, a: int, b: int) -> bool {
    let t = s.buf.text;
    &&& s.mode is Visual
    &&& 0 <= a <= b < t.len()
    &&& (s.anchor == text::off(t, a) && s.cursor() == text::off(t, b)) || (s.anchor == text::off(
        t,
        b,
    ) && s.cursor() == text::off(t, a))
}

pub proof fn lemma_selects(s: EdV, a: int, b: int)
    requires
        selects(s, a, b),
    ensures
        s.visual_range() == (text::off(s.buf.text, a), text::off(s.buf.text, b + 1)),
        s.taken(text::off(s.buf.text, a), text::off(s.buf.text, b + 1)) == s.buf.text.subrange(
            a,
            b + 1,
        ),
{
    let t = s.buf.text;
    if s.anchor == text::off(t, a) && s.cursor() == text::off(t, b) {
        edits::law_selection(s, a, b);
    } else {
        edits::law_selection(s, b, a);
    }
    lemma_taken(s, a, b + 1);
}

pub proof fn lemma_taken(s: EdV, i: int, j: int)
    requires
        0 <= i <= j <= s.buf.text.len(),
    ensures
        s.taken(text::off(s.buf.text, i), text::off(s.buf.text, j)) == s.buf.text.subrange(i, j),
{
    let t = s.buf.text;
    text::lemma_at_off(t, i);
    text::lemma_at_off(t, j);
    text::lemma_off_mono(t, i, j);
    cursor::lemma_legal(t, text::off(t, i));
    cursor::lemma_legal(t, text::off(t, j));
}

proof fn lemma_recased_prefix(a: Seq<char>, b: Seq<char>, op: CaseOp, n: int)
    requires
        0 <= n <= a.len(),
        n <= b.len(),
        a.take(n) == b.take(n),
    ensures
        visual::recased_text(a, op, n) == visual::recased_text(b, op, n),
    decreases n,
{
    if n > 0 {
        assert(a.take(n - 1) =~= a.take(n).take(n - 1));
        assert(b.take(n - 1) =~= b.take(n).take(n - 1));
        assert(a.take(n)[n - 1] == a[n - 1]);
        assert(b.take(n)[n - 1] == b[n - 1]);
        lemma_recased_prefix(a, b, op, n - 1);
    }
}

/// A text changes its case character by character, in order. To lower case
/// every character gives its lower-case form, to upper case its upper-case
/// form; toggled, an upper-case letter gives its lower-case form, a lower-case
/// letter its upper-case form, and any other character stays.
pub proof fn law_case(a: Seq<char>, b: Seq<char>, op: CaseOp)
    ensures
        visual::recased_text(a + b, op, (a + b).len() as int) == visual::recased_text(
            a,
            op,
            a.len() as int,
        ) + visual::recased_text(b, op, b.len() as int),
        a.len() == 1 && op is Lower ==> visual::recased_text(a, op, 1) == chars::lower_char_of(
            a[0],
        ),
        a.len() == 1 && op is Upper ==> visual::recased_text(a, op, 1) == chars::upper_char_of(
            a[0],
        ),
        a.len() == 1 && op is Toggle && chars::is_upper(a[0]) ==> visual::recased_text(a, op, 1)
            == chars::lower_char_of(a[0]),
        a.len() == 1 && op is Toggle && !chars::is_upper(a[0]) && chars::is_lower(a[0])
            ==> visual::recased_text(a, op, 1) == chars::upper_char_of(a[0]),
        a.len() == 1 && op is Toggle && !chars::is_upper(a[0]) && !chars::is_lower(a[0])
            ==> visual::recased_text(a, op, 1) == a,
    decreases b.len(),
{
    let m = a.len() as int;
    let n = b.len() as int;
    if m == 1 {
        assert(visual::recased_text(a, op, 0) =~= Seq::empty());
        assert(visual::recased_text(a, op, 1) =~= visual::recased(a[0], op));
        assert(seq![a[0]] =~= a);
    }
    if n == 0 {
        assert(a + b =~= a);
        assert(visual::recased_text(a, op, m) + visual::recased_text(b, op, 0)
            =~= visual::recased_text(a, op, m));
    } else {
        let c = b.drop_last();
        law_case(a, c, op);
        assert((a + c).take(m + n - 1) =~= (a + b).take(m + n - 1));
        lemma_recased_prefix(a + c, a + b, op, m + n - 1);
        assert(c.take(n - 1) =~= b.take(n - 1));
        lemma_recased_prefix(c, b, op, n - 1);
        assert((a + b)[m + n - 1] == b[n - 1]);
        let x = visual::recased_text(a, op, m);
        let y = visual::recased_text(b, op, n - 1);
        let z = visual::recased(b[n - 1], op);
        assert(x + y + z =~= x + (y + z));
    }
}

/// A change of case changes the selected characters, each in its place, and
/// nothing else.
pub proof fn law_selection_recased(s: EdV, a: int, b: int, op: CaseOp)
    requires
        selects(s, a, b),
    ensures
        ({
            let t = s.buf.text;
            let r = s.visual_case(op);
            &&& r.buf.text == t.take(a) + visual::recased_text(t.subrange(a, b + 1), op, b + 1 - a)
                + t.skip(b + 1)
            &&& r.mode is Normal
        }),
{
    reveal(EdV::visual_case);
    lemma_selects(s, a, b);
    let t = s.buf.text;
    let x = t.subrange(a, b + 1);
    edits::law_edit(s, a, b + 1, visual::recased_text(x, op, x.len() as int));
}

/// A selection of lines changes its case from the head of its first line to
/// the end of its last.
pub proof fn law_lines_recased(s: EdV, top: int, bottom: int, op: CaseOp)
    requires
        s.mode is VisualLine,
        0 <= top <= bottom < s.line_count(),
        (s.anchor_line == top && s.line == bottom) || (s.anchor_line == bottom && s.line == top),
    ensures
        ({
            let t = s.buf.text;
            let a = lines::line_start(t, top);
            let b = lines::line_start(t, bottom + 1);
            s.visual_case(op).buf.text == t.take(a) + visual::recased_text(
                t.subrange(a, b),
                op,
                b - a,
            ) + t.skip(b)
        }),
{
    reveal(EdV::visual_case);
    let t = s.buf.text;
    let a = lines::line_start(t, top);
    let b = lines::line_start(t, bottom + 1);
    lines::lemma_line_start(t, top);
    lines::lemma_line_start(t, bottom + 1);
    lines::lemma_line_start_mono(t, top, bottom + 1);
    lemma_taken(s, a, b);
    let x = t.subrange(a, b);
    edits::law_edit(s, a, b, visual::recased_text(x, op, x.len() as int));
}

/// `r` on a selection puts the character in place of every selected one but
/// line feeds, and changes nothing else.
pub proof fn law_selection_replaced(s: EdV, a: int, b: int, c: char)
    requires
        selects(s, a, b),
    ensures
        ({
            let t = s.buf.text;
            let u = s.visual_replace(c).buf.text;
            &&& u.len() == t.len()
            &&& forall|k: int|
                0 <= k < t.len() ==> #[trigger] u[k] == if a <= k <= b && t[k] != '\n' {
                    c
                } else {
                    t[k]
                }
            &&& s.visual_replace(c).mode is Normal
        }),
{
    reveal(EdV::visual_replace);
    lemma_selects(s, a, b);
    let t = s.buf.text;
    let x = t.subrange(a, b + 1);
    edits::law_edit(s, a, b + 1, visual::overwritten(x, c));
}

/// An operator on a selection: `d` and `c` take the selected characters out
/// of the text, `y` leaves them there; all put them in the register. `c` goes
/// on to insert, the others go back to Normal mode.
pub proof fn law_selection_operated(s: EdV, a: int, b: int, op: char)
    requires
        selects(s, a, b),
        op == 'd' || op == 'c' || op == 'y',
    ensures
        ({
            let t = s.buf.text;
            let r = s.visual_op(op);
            &&& op != 'y' ==> r.buf.text == t.take(a) + t.skip(b + 1)
            &&& op == 'y' ==> r.buf == s.buf
            &&& r.regs.slots.contains_key('"')
            &&& r.regs.slots['"'] == (YankV {
                text: t.subrange(a, b + 1),
                kind: YankKind::Charwise,
            })
            &&& op == 'c' ==> r.mode is Insert
            &&& op != 'c' ==> r.mode is Normal
        }),
{
    reveal(EdV::visual_op);
    lemma_selects(s, a, b);
    let t = s.buf.text;
    let q = EdV {
        pending: crate::editor::state::Pending { operator: Some(op), ..s.pending },
        ..s
    };
    assert(q.visual_range() == s.visual_range());
    if op == 'y' {
        edits::law_range_yanked(q, a, b + 1);
    } else {
        edits::law_range_removed(q, op, a, b + 1);
    }
    assert(q.op_charwise(op, text::off(t, a), text::off(t, b + 1)).regs.slots.contains_key('"'));
}

// ── Blocks ──────────────────────────────────────────────────────────────

/// Line `l` with the characters in the columns `v1..=v2` replaced, each by `r`.
pub open spec fn row_filled(l: Seq<char>, v1: int, v2: int, ts: int, r: Seq<char>) -> Seq<char> {
    let i = cols::index_at_col(l, v1, ts);
    let j = cols::index_at_col(l, cols::sat(v2 + 1), ts);
    if i < j {
        l.take(i) + strs::repeated(r, j - i) + l.skip(j)
    } else {
        l
    }
}

/// The characters of line `l` in the columns `v1..=v2`, with blanks before
/// them for the columns that the line does not reach.
pub open spec fn row_of(l: Seq<char>, v1: int, v2: int, ts: int) -> Seq<char> {
    let i = cols::index_at_col(l, v1, ts);
    let j = cols::index_at_col(l, cols::sat(v2 + 1), ts);
    let w = cols::col_after(l, i, ts);
    strs::repeated(" "@, if v1 > w { v1 - w } else { 0 }) + l.subrange(i, j)
}

proof fn lemma_fill(s: EdV, k: int, v1: int, v2: int, r: Seq<char>)
    requires
        0 <= k < s.line_count(),
        v1 <= v2 <= usize::MAX,
    ensures
        ({
            let t = s.buf.text;
            let l = lines::line_text(t, k);
            let a = lines::line_start(t, k);
            s.block_fill(k, v1, v2, r).buf.text == t.take(a) + row_filled(
                l,
                v1,
                v2,
                s.tabstop(),
                r,
            ) + t.skip(a + l.len())
        }),
{
    let t = s.buf.text;
    let l = lines::line_text(t, k);
    let a = lines::line_start(t, k);
    let ts = s.tabstop();
    lines::lemma_line_raw(t, k);
    visual::lemma_col_order(l, v1, state::plus(v2, 1), ts, 0);
    let (i, j) = s.block_span(k, v1, v2);
    let w = row_filled(l, v1, v2, ts, r);
    if i < j {
        let x = strs::repeated(r, j - i);
        assert(text::off(l, i) == text::off(t, a + i) - lines::line_off(t, k));
        assert(text::off(l, j) == text::off(t, a + j) - lines::line_off(t, k));
        edits::law_edit(s, a + i, a + j, x);
        assert(t.take(a + i) =~= t.take(a) + l.take(i));
        assert(t.skip(a + j) =~= l.skip(j) + t.skip(a + l.len()));
        assert(t.take(a + i) + x + t.skip(a + j) =~= t.take(a) + w + t.skip(a + l.len()));
    } else {
        assert(t =~= t.take(a) + l + t.skip(a + l.len()));
    }
}

/// Lines that keep their text make up the stretch of the text that they are.
proof fn lemma_kept(t: Seq<char>, ls: Seq<Seq<char>>, a: int, b: int)
    requires
        0 <= a <= b <= lines::line_count(t),
        forall|j: int| a <= j < b ==> #[trigger] ls[j] == lines::line_text(t, j),
    ensures
        substitute::relined(t, ls, a) == t.subrange(lines::line_start(t, a), lines::line_start(t, b))
            + substitute::relined(t, ls, b),
    decreases b - a,
{
    lines::lemma_line_start(t, a);
    lines::lemma_line_start(t, b);
    lines::lemma_line_start_mono(t, a, b);
    let p = lines::line_start(t, a);
    let q = lines::line_start(t, b);
    if a == b {
        assert(t.subrange(p, q) =~= Seq::empty());
        assert(t.subrange(p, q) + substitute::relined(t, ls, b) =~= substitute::relined(t, ls, b));
    } else {
        lemma_kept(t, ls, a + 1, b);
        lines::lemma_line_raw(t, a);
        lines::lemma_line_start_mono(t, a + 1, b);
        let l = lines::line_text(t, a);
        let br = lines::line_raw(t, a).skip(l.len() as int);
        let tail = substitute::relined(t, ls, b);
        assert(ls[a] == l);
        assert(l + br =~= lines::line_raw(t, a));
        let m = lines::line_start(t, a + 1);
        assert(lines::line_raw(t, a) + (t.subrange(m, q) + tail) =~= t.subrange(p, q) + tail);
    }
}

/// No line but the last ends in a lone carriage return.
pub open spec fn plain_ends(t: Seq<char>) -> bool {
    forall|j: int|
        0 < j < lines::line_count(t) ==> t[#[trigger] lines::line_start(t, j) - 1] != '\r'
}

/// The lines of `t`, those from `l1` to `l2` with the block filled.
pub open spec fn lines_filled(
    t: Seq<char>,
    l1: int,
    l2: int,
    v1: int,
    v2: int,
    ts: int,
    r: Seq<char>,
) -> Seq<Seq<char>> {
    Seq::new(
        lines::line_count(t) as nat,
        |j: int|
            if l1 <= j <= l2 {
                row_filled(lines::line_text(t, j), v1, v2, ts, r)
            } else {
                lines::line_text(t, j)
            },
    )
}

proof fn lemma_fill_step(
    s: EdV,
    t: Seq<char>,
    ls: Seq<Seq<char>>,
    k: int,
    v1: int,
    v2: int,
    r: Seq<char>,
)
    requires
        plain_ends(t),
        0 <= k < lines::line_count(t),
        v1 <= v2 <= usize::MAX,
        s.buf.text == t.take(lines::line_start(t, k + 1)) + substitute::relined(t, ls, k + 1),
        ls[k] == row_filled(lines::line_text(t, k), v1, v2, s.tabstop(), r),
    ensures
        lines::line_text(s.buf.text, k) == lines::line_text(t, k),
        s.block_fill(k, v1, v2, r).buf.text == t.take(lines::line_start(t, k))
            + substitute::relined(t, ls, k),
{
    let u = s.buf.text;
    let n = k + 1;
    let e = lines::line_start(t, n);
    lines::lemma_line_start(t, n);
    assert(u.take(e) =~= t.take(e));
    if n == lines::line_count(t) {
        assert(substitute::relined(t, ls, n) =~= Seq::empty());
        assert(t.take(e) =~= t);
        assert(u =~= t);
    }
    substitute::lemma_line_kept(t, u, n);
    lemma_fill(s, k, v1, v2, r);
    substitute::lemma_relined(t, u, ls, n);
}

proof fn lemma_fill_all(
    s: EdV,
    t: Seq<char>,
    k: int,
    l1: int,
    l2: int,
    v1: int,
    v2: int,
    r: Seq<char>,
)
    requires
        plain_ends(t),
        0 <= l1 <= k + 1,
        k <= l2 < lines::line_count(t),
        v1 <= v2 <= usize::MAX,
        s.buf.text == t.take(lines::line_start(t, k + 1)) + substitute::relined(
            t,
            lines_filled(t, l1, l2, v1, v2, s.tabstop(), r),
            k + 1,
        ),
    ensures
        s.block_fill_all(k, l1, v1, v2, r).buf.text == substitute::relined(
            t,
            lines_filled(t, l1, l2, v1, v2, s.tabstop(), r),
            0,
        ),
        r.len() == 0 ==> s.block_rows(k, l1, v1, v2, true) == Seq::new(
            (k + 1 - l1) as nat,
            |m: int| row_of(lines::line_text(t, l1 + m), v1, v2, s.tabstop()),
        ),
    decreases k - l1 + 1,
{
    let ts = s.tabstop();
    let ls = lines_filled(t, l1, l2, v1, v2, ts, r);
    if k < l1 {
        lines::lemma_line_start(t, 0);
        lemma_kept(t, ls, 0, l1);
        assert(t.subrange(0, lines::line_start(t, l1)) =~= t.take(lines::line_start(t, l1)));
        assert(s.block_rows(k, l1, v1, v2, true) =~= Seq::new(
            (k + 1 - l1) as nat,
            |m: int| row_of(lines::line_text(t, l1 + m), v1, v2, ts),
        ));
    } else {
        lemma_fill_step(s, t, ls, k, v1, v2, r);
        let q = s.block_fill(k, v1, v2, r);
        lemma_fill_all(q, t, k - 1, l1, l2, v1, v2, r);
        if r.len() == 0 {
            assert(r =~= Seq::empty());
            let rows = Seq::new(
                (k + 1 - l1) as nat,
                |m: int| row_of(lines::line_text(t, l1 + m), v1, v2, ts),
            );
            let fewer = Seq::new(
                (k - l1) as nat,
                |m: int| row_of(lines::line_text(t, l1 + m), v1, v2, ts),
            );
            assert(s.block_row(k, v1, v2) == row_of(lines::line_text(t, k), v1, v2, ts));
            assert(fewer.push(s.block_row(k, v1, v2)) =~= rows);
        }
    }
}

/// Filling a block changes, on each of its lines, the characters in its
/// columns, and nothing else: deleting it takes them out, replacing it puts the
/// character in place of each.
pub proof fn law_block_filled(s: EdV, l1: int, l2: int, v1: int, v2: int, r: Seq<char>)
    requires
        plain_ends(s.buf.text),
        0 <= l1 <= l2 < s.line_count(),
        v1 <= v2 <= usize::MAX,
    ensures
        s.block_fill_all(l2, l1, v1, v2, r).buf.text == substitute::relined(
            s.buf.text,
            lines_filled(s.buf.text, l1, l2, v1, v2, s.tabstop(), r),
            0,
        ),
        s.block_rows(l2, l1, v1, v2, true) == Seq::new(
            (l2 + 1 - l1) as nat,
            |m: int| row_of(lines::line_text(s.buf.text, l1 + m), v1, v2, s.tabstop()),
        ),
{
    lemma_first_fill(s, l1, l2, v1, v2, r);
    lemma_first_fill(s, l1, l2, v1, v2, Seq::empty());
}

proof fn lemma_first_fill(s: EdV, l1: int, l2: int, v1: int, v2: int, r: Seq<char>)
    requires
        plain_ends(s.buf.text),
        0 <= l1 <= l2 < s.line_count(),
        v1 <= v2 <= usize::MAX,
    ensures
        s.block_fill_all(l2, l1, v1, v2, r).buf.text == substitute::relined(
            s.buf.text,
            lines_filled(s.buf.text, l1, l2, v1, v2, s.tabstop(), r),
            0,
        ),
        r.len() == 0 ==> s.block_rows(l2, l1, v1, v2, true) == Seq::new(
            (l2 + 1 - l1) as nat,
            |m: int| row_of(lines::line_text(s.buf.text, l1 + m), v1, v2, s.tabstop()),
        ),
{
    let t = s.buf.text;
    let n = lines::line_count(t);
    let ls = lines_filled(t, l1, l2, v1, v2, s.tabstop(), r);
    let e = lines::line_start(t, l2 + 1);
    lemma_kept(t, ls, l2 + 1, n);
    lines::lemma_line_start(t, n);
    lines::lemma_line_start(t, l2 + 1);
    assert(substitute::relined(t, ls, n) =~= Seq::empty());
    assert(t =~= t.take(e) + (t.subrange(e, t.len() as int) + Seq::empty()));
    lemma_fill_all(s, t, l2, l1, l2, v1, v2, r);
}

proof fn lemma_rows_read(s: EdV, k: int, l1: int, v1: int, v2: int)
    requires
        l1 <= k + 1,
    ensures
        s.block_rows(k, l1, v1, v2, false) == Seq::new(
            (k + 1 - l1) as nat,
            |m: int| row_of(lines::line_text(s.buf.text, l1 + m), v1, v2, s.tabstop()),
        ),
    decreases k - l1 + 1,
{
    let rows = Seq::new(
        (k + 1 - l1) as nat,
        |m: int| row_of(lines::line_text(s.buf.text, l1 + m), v1, v2, s.tabstop()),
    );
    if k < l1 {
        assert(s.block_rows(k, l1, v1, v2, false) =~= rows);
    } else {
        lemma_rows_read(s, k - 1, l1, v1, v2);
        let fewer = Seq::new(
            (k - l1) as nat,
            |m: int| row_of(lines::line_text(s.buf.text, l1 + m), v1, v2, s.tabstop()),
        );
        assert(s.block_row(k, v1, v2) == row_of(
            lines::line_text(s.buf.text, k),
            v1,
            v2,
            s.tabstop(),
        ));
        assert(fewer.push(s.block_row(k, v1, v2)) =~= rows);
    }
}

/// A block that is yanked or deleted is in the register row by row, the top
/// row first, whichever corners it was drawn between. Yanked, it stays in the
/// text; deleted, its characters are gone from its lines and nothing else is.
pub proof fn law_block_taken(s: EdV, l1: int, l2: int, v1: int, v2: int, verb: Seq<char>)
    requires
        plain_ends(s.buf.text),
        s.buf.depth == 0,
        0 <= l1 <= l2 < s.line_count(),
        v1 <= v2 <= usize::MAX,
        (s.anchor_line == l1 && s.line == l2) || (s.anchor_line == l2 && s.line == l1),
        (s.vb_anchor == v1 && s.vb_cur == v2) || (s.vb_anchor == v2 && s.vb_cur == v1),
    ensures
        ({
            let t = s.buf.text;
            let rows = Seq::new(
                (l2 + 1 - l1) as nat,
                |m: int| row_of(lines::line_text(t, l1 + m), v1, v2, s.tabstop()),
            );
            let y = (YankV { text: strs::joined(rows, "\n"@), kind: YankKind::Block });
            &&& s.yank_block().buf == s.buf
            &&& s.yank_block().regs.slots.contains_key('"')
            &&& s.yank_block().regs.slots['"'] == y
            &&& s.cut_block(verb).regs.slots.contains_key('"')
            &&& s.cut_block(verb).regs.slots['"'] == y
            &&& s.cut_block(verb).buf.text == substitute::relined(
                t,
                lines_filled(t, l1, l2, v1, v2, s.tabstop(), Seq::empty()),
                0,
            )
            &&& s.cut_block(verb).line == l1
            &&& s.yank_block().line == l1
        }),
{
    lemma_rows_read(s, l2, l1, v1, v2);
    law_block_filled(s.open_undo(), l1, l2, v1, v2, Seq::empty());
}

/// A row of a block is put at its column: where the line has a character that
/// starts there, or ends there, the row comes right before what follows.
pub proof fn law_row_put(s: EdV, k: int, chunk: Seq<char>, i: int, ts: int)
    requires
        0 <= k < s.line_count(),
        0 <= i <= s.line_text(k).len(),
        ts > 0,
        cols::col_after(s.line_text(k), s.line_text(k).len() as int, ts) < usize::MAX,
    ensures
        ({
            let t = s.buf.text;
            let at = lines::line_start(t, k) + i;
            s.put_row(k, chunk, cols::col_after(s.line_text(k), i, ts), ts).buf.text == t.take(at)
                + chunk + t.skip(at)
        }),
{
    let t = s.buf.text;
    let l = s.line_text(k);
    let n = l.len() as int;
    let st = lines::line_start(t, k);
    lines::lemma_line_raw(t, k);
    cols::lemma_started(l, n, 0);
    cols::lemma_started(l, i, 0);
    cols::lemma_col_mono(l, i, n, ts);
    cols::law_column_leads_back(l, i, ts);
    assert(text::off(l, i) == text::off(t, st + i) - lines::line_off(t, k));
    edits::law_edit(s, st + i, st + i, chunk);
}

/// A line that ends before the column is filled up with blanks first, so that
/// the row stands at its column there too.
pub proof fn law_row_padded(s: EdV, k: int, chunk: Seq<char>, v: int, ts: int)
    requires
        0 <= k < s.line_count(),
        ts > 0,
        cols::col_after(s.line_text(k), s.line_text(k).len() as int, ts) < v < usize::MAX,
    ensures
        ({
            let t = s.buf.text;
            let l = s.line_text(k);
            let e = lines::line_start(t, k) + l.len();
            let w = cols::col_after(l, l.len() as int, ts);
            let pad = Seq::new((v - w) as nat, |j: int| ' ');
            s.put_row(k, chunk, v, ts).buf.text == t.take(e) + (pad + chunk) + t.skip(e)
        }),
{
    let t = s.buf.text;
    let l = s.line_text(k);
    let n = l.len() as int;
    let st = lines::line_start(t, k);
    let w = cols::col_after(l, n, ts);
    lines::lemma_line_raw(t, k);
    cols::lemma_started(l, n, 0);
    assert(text::off(l, n) == text::off(t, st + n) - lines::line_off(t, k));
    lemma_filled_up(v - w);
    edits::law_edit(s, st + n, st + n, ops::spaces(v - w) + chunk);
}

proof fn lemma_filled_up(n: int)
    requires
        0 <= n,
    ensures
        ops::spaces(n) == Seq::new(n as nat, |j: int| ' '),
    decreases n,
{
    reveal_strlit(" ");
    assert(" "@ =~= seq![' ']);
    if n > 0 {
        lemma_filled_up(n - 1);
        assert(Seq::new((n - 1) as nat, |j: int| ' ') + " "@ =~= Seq::new(n as nat, |j: int| ' '));
        assert(" "@ + Seq::new((n - 1) as nat, |j: int| ' ') =~= Seq::new(n as nat, |j: int| ' '));
    }
    assert(ops::spaces(n) =~= Seq::new(n as nat, |j: int| ' '));
}

/// What is typed before a block is copied into each of its lines at the block's
/// column; a line that does not reach the column stays as it is.
pub proof fn law_copied_down(s: EdV, k: int, i: int, v: int, c: Seq<char>)
    requires
        0 <= k < s.line_count(),
        0 <= i <= s.line_text(k).len(),
        s.tabstop() > 0,
        cols::col_after(s.line_text(k), s.line_text(k).len() as int, s.tabstop()) < v < usize::MAX,
    ensures
        ({
            let t = s.buf.text;
            let at = lines::line_start(t, k) + i;
            let here = cols::col_after(s.line_text(k), i, s.tabstop());
            &&& s.copy_down(here, seq![k], 1, c).buf.text == t.take(at) + c + t.skip(at)
            &&& s.copy_down(v, seq![k], 1, c) == s
        }),
{
    let t = s.buf.text;
    let l = s.line_text(k);
    let n = l.len() as int;
    let ts = s.tabstop();
    let st = lines::line_start(t, k);
    reveal_with_fuel(EdV::copy_down, 2);
    lines::lemma_line_raw(t, k);
    cols::lemma_started(l, i, 0);
    cols::lemma_col_mono(l, i, n, ts);
    cols::law_column_leads_back(l, i, ts);
    cols::law_columns_past(l, v, ts);
    assert(text::off(l, i) == text::off(t, st + i) - lines::line_off(t, k));
    edits::law_edit(s, st + i, st + i, c);
}

} // verus!
