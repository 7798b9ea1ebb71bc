//! Word wrap: where the characters of a line come to stand when it is broken
//! into rows of the pane.
//!
//! Characters fill a row until one does not fit. The row is then broken at its
//! last space, which is not shown, and what follows the space moves down; a
//! row without a space is broken where it is full. The line-number gutter
//! takes the start of the first row.
//!
//! The width of a character comes from a table beside the line, since it is
//! the terminal that decides it. A tab reaches to the next tab stop.

use vstd::prelude::*;
use crate::cols;
use crate::text;
use crate::text::{char_len, offset_of};

verus! {

/// Width of a character by the table: at least 1, and 1 past its end.
pub open spec fn width_at(ws: Seq<usize>, i: int) -> int {
    if 0 <= i < ws.len() && ws[i] > 1 {
        ws[i] as int
    } else {
        1
    }
}

/// Columns that character `i` takes at column `col`.
pub open spec fn cell(l: Seq<char>, ws: Seq<usize>, ts: int, i: int, col: int) -> int {
    if l[i] == '\t' {
        ts - col % ts
    } else {
        width_at(ws, i)
    }
}

/// Index of the last space among the first `n` cells of a row, or -1.
pub open spec fn last_space(l: Seq<char>, row: Seq<(int, int)>, n: int) -> int
    decreases n,
{
    if n <= 0 {
        -1
    } else if l[row[n - 1].0] == ' ' {
        n - 1
    } else {
        last_space(l, row, n - 1)
    }
}

/// The first `n` cells laid anew from column 0, and the column after them.
pub open spec fn laid(l: Seq<char>, ws: Seq<usize>, ts: int, tail: Seq<(int, int)>, n: int) -> (
    Seq<(int, int)>,
    int,
)
    decreases n,
{
    if n <= 0 {
        (Seq::empty(), 0)
    } else {
        let (row, col) = laid(l, ws, ts, tail, n - 1);
        let i = tail[n - 1].0;
        (row.push((i, col)), col + cell(l, ws, ts, i, col))
    }
}

/// Rows that are full, the row being filled and the column after it. A row
/// holds the indices of its characters with the columns they start at.
#[verifier::ext_equal]
pub struct WrapV {
    pub rows: Seq<Seq<(int, int)>>,
    pub row: Seq<(int, int)>,
    pub col: int,
}

impl WrapV {
    pub open spec fn broken(self, l: Seq<char>, ws: Seq<usize>, ts: int) -> WrapV {
        let sp = last_space(l, self.row, self.row.len() as int);
        if sp >= 0 {
            let tail = self.row.skip(sp + 1);
            let (row, col) = laid(l, ws, ts, tail, tail.len() as int);
            WrapV { rows: self.rows.push(self.row.take(sp)), row, col }
        } else {
            WrapV { rows: self.rows.push(self.row), row: Seq::empty(), col: 0 }
        }
    }

    pub open spec fn put(self, l: Seq<char>, ws: Seq<usize>, ts: int, i: int) -> WrapV {
        WrapV {
            rows: self.rows,
            row: self.row.push((i, self.col)),
            col: self.col + cell(l, ws, ts, i, self.col),
        }
    }
}

/// The first `n` characters wrapped.
pub open spec fn wrapped(
    l: Seq<char>,
    ws: Seq<usize>,
    width: int,
    gutter: int,
    ts: int,
    n: int,
) -> WrapV
    decreases n,
{
    if n <= 0 {
        WrapV { rows: Seq::empty(), row: Seq::empty(), col: gutter }
    } else {
        let s = wrapped(l, ws, width, gutter, ts, n - 1);
        if s.col + cell(l, ws, ts, n - 1, s.col) > width {
            s.broken(l, ws, ts).put(l, ws, ts, n - 1)
        } else {
            s.put(l, ws, ts, n - 1)
        }
    }
}

/// The rows of a line.
pub open spec fn rows_of(l: Seq<char>, ws: Seq<usize>, width: int, gutter: int, ts: int) -> Seq<
    Seq<(int, int)>,
> {
    if width <= 0 {
        seq![Seq::empty()]
    } else {
        let s = wrapped(l, ws, width, gutter, ts, l.len() as int);
        s.rows.push(s.row)
    }
}

/// The first cell at or after cell `k` of row `r` whose character is `t` or a
/// later one, as row and column.
pub open spec fn seek(rows: Seq<Seq<(int, int)>>, t: int, r: int, k: int) -> Option<(int, int)>
    decreases rows.len() - r, rows[r].len() - k,
{
    if r < 0 || r >= rows.len() {
        None
    } else if k < 0 || k >= rows[r].len() {
        seek(rows, t, r + 1, 0)
    } else if rows[r][k].0 >= t {
        Some((r, rows[r][k].1))
    } else {
        seek(rows, t, r, k + 1)
    }
}

/// Column just past a row.
pub open spec fn row_end(l: Seq<char>, ws: Seq<usize>, ts: int, row: Seq<(int, int)>) -> int {
    let (i, c) = row.last();
    c + cell(l, ws, ts, i, c)
}

/// Row and column of the first character shown at or after byte `b`. With
/// none left it is the place past the last row, which moves down a row when
/// less than one column would be left beside it.
pub open spec fn pos_of(
    l: Seq<char>,
    ws: Seq<usize>,
    b: int,
    width: int,
    gutter: int,
    ts: int,
) -> (int, int) {
    let rows = rows_of(l, ws, width, gutter, ts);
    if width <= 0 {
        (0, gutter)
    } else {
        match seek(rows, cols::started(l, b, 0), 0, 0) {
            Some(p) => p,
            None => {
                let c = if rows.last().len() > 0 {
                    row_end(l, ws, ts, rows.last())
                } else {
                    gutter
                };
                if c + 1 >= width {
                    (rows.len() as int, 0)
                } else {
                    (rows.len() - 1, c)
                }
            },
        }
    }
}

/// First character of the rows from `r` on.
pub open spec fn first_from(rows: Seq<Seq<(int, int)>>, r: int) -> Option<int>
    decreases rows.len() - r,
{
    if r < 0 || r >= rows.len() {
        None
    } else if rows[r].len() > 0 {
        Some(rows[r][0].0)
    } else {
        first_from(rows, r + 1)
    }
}

/// The last of the first `n` cells that starts at or before a column; the
/// first one when none does.
pub open spec fn cell_at(row: Seq<(int, int)>, col: int, n: int) -> int
    decreases n,
{
    if n <= 1 || row[n - 1].1 <= col {
        n - 1
    } else {
        cell_at(row, col, n - 1)
    }
}

/// Byte of the character shown at a row and column: past the row's end the
/// byte after its last character, past the last row the end of the line.
pub open spec fn byte_of(
    l: Seq<char>,
    ws: Seq<usize>,
    r: int,
    col: int,
    width: int,
    gutter: int,
    ts: int,
) -> int {
    let rows = rows_of(l, ws, width, gutter, ts);
    if r < 0 || r >= rows.len() {
        text::blen(l)
    } else if rows[r].len() == 0 {
        match first_from(rows, r + 1) {
            Some(i) => text::off(l, i),
            None => text::blen(l),
        }
    } else if col >= row_end(l, ws, ts, rows[r]) {
        text::off(l, rows[r].last().0 + 1)
    } else {
        text::off(l, rows[r][cell_at(rows[r], col, rows[r].len() as int)].0)
    }
}

// ── Facts about the rows ────────────────────────────────────────────────

/// A row within the first `n` characters: indices and columns ascend, and
/// end before `col`.
pub open spec fn row_ok(row: Seq<(int, int)>, n: int, col: int) -> bool {
    &&& forall|k: int|
        0 <= k < row.len() ==> 0 <= (#[trigger] row[k]).0 < n && 0 <= row[k].1 < col
    &&& forall|j: int, k: int|
        0 <= j < k < row.len() ==> (#[trigger] row[j]).0 < (#[trigger] row[k]).0 && row[j].1
            < row[k].1
}

pub open spec fn row_fits(row: Seq<(int, int)>, n: int) -> bool {
    exists|col: int| row_ok(row, n, col)
}

pub open spec fn before(a: Seq<(int, int)>, b: Seq<(int, int)>) -> bool {
    forall|j: int, k: int|
        0 <= j < a.len() && 0 <= k < b.len() ==> (#[trigger] a[j]).0 < (#[trigger] b[k]).0
}

pub open spec fn rows_ok(rows: Seq<Seq<(int, int)>>, n: int) -> bool {
    &&& forall|r: int|
        0 <= r < rows.len() ==> row_fits(#[trigger] rows[r], n)
    &&& forall|r: int, q: int|
        0 <= r < q < rows.len() ==> before(#[trigger] rows[r], #[trigger] rows[q])
}

/// A character of the row.
pub open spec fn on_row(row: Seq<(int, int)>, i: int) -> bool {
    exists|k: int| 0 <= k < row.len() && (#[trigger] row[k]).0 == i
}

pub open spec fn shown(rows: Seq<Seq<(int, int)>>, i: int) -> bool {
    exists|r: int| 0 <= r < rows.len() && on_row(#[trigger] rows[r], i)
}

proof fn lemma_cell(l: Seq<char>, ws: Seq<usize>, ts: int, i: int, col: int)
    requires
        0 < ts <= usize::MAX,
        0 <= col,
    ensures
        1 <= cell(l, ws, ts, i, col) <= usize::MAX,
{
    assert(0 <= col % ts < ts) by (nonlinear_arith)
        requires
            0 < ts,
    ;
}

proof fn lemma_last_space(l: Seq<char>, row: Seq<(int, int)>, n: int)
    requires
        n <= row.len(),
    ensures
        -1 <= last_space(l, row, n),
        last_space(l, row, n) < n || n < 0,
        last_space(l, row, n) >= 0 ==> l[row[last_space(l, row, n)].0] == ' ',
    decreases n,
{
    if n > 0 && l[row[n - 1].0] != ' ' {
        lemma_last_space(l, row, n - 1);
    }
}

proof fn lemma_laid(l: Seq<char>, ws: Seq<usize>, ts: int, tail: Seq<(int, int)>, n: int, m: int)
    requires
        0 < ts <= usize::MAX,
        0 <= n <= tail.len(),
        forall|k: int| 0 <= k < tail.len() ==> 0 <= (#[trigger] tail[k]).0 < m,
        forall|j: int, k: int|
            0 <= j < k < tail.len() ==> (#[trigger] tail[j]).0 < (#[trigger] tail[k]).0,
    ensures
        laid(l, ws, ts, tail, n).0.len() == n,
        forall|k: int|
            0 <= k < n ==> (#[trigger] laid(l, ws, ts, tail, n).0[k]).0 == tail[k].0,
        row_ok(laid(l, ws, ts, tail, n).0, m, laid(l, ws, ts, tail, n).1),
        0 <= laid(l, ws, ts, tail, n).1 <= n * (usize::MAX as int),
        n > 0 ==> laid(l, ws, ts, tail, n).1 == row_end(l, ws, ts, laid(l, ws, ts, tail, n).0),
    decreases n,
{
    if n > 0 {
        lemma_laid(l, ws, ts, tail, n - 1, m);
        let (row, col) = laid(l, ws, ts, tail, n - 1);
        lemma_cell(l, ws, ts, tail[n - 1].0, col);
        assert((n - 1) * (usize::MAX as int) + usize::MAX == n * (usize::MAX as int))
            by (nonlinear_arith);
    }
}

/// What holds of the wrapping at every character.
pub open spec fn wrap_ok(l: Seq<char>, ws: Seq<usize>, gutter: int, ts: int, n: int, s: WrapV) -> bool {
    &&& rows_ok(s.rows, n)
    &&& row_ok(s.row, n, s.col)
    &&& forall|r: int| 0 <= r < s.rows.len() ==> before(#[trigger] s.rows[r], s.row)
    &&& forall|i: int|
        0 <= i < n && l[i] != ' ' ==> #[trigger] shown(s.rows, i) || on_row(s.row, i)
    &&& 0 <= s.col <= gutter + n * (usize::MAX as int)
    &&& n > 0 ==> s.row.len() > 0 && s.row.last().0 == n - 1 && s.col == row_end(
        l,
        ws,
        ts,
        s.row,
    )
    &&& n <= 0 ==> s.rows.len() == 0 && s.row.len() == 0 && s.col == gutter
    &&& s.rows.len() <= n
    &&& s.row.len() <= n
}

proof fn lemma_broken(
    l: Seq<char>,
    ws: Seq<usize>,
    gutter: int,
    ts: int,
    n: int,
    s: WrapV,
)
    requires
        0 < ts <= usize::MAX,
        0 <= gutter,
        0 <= n <= l.len(),
        wrap_ok(l, ws, gutter, ts, n, s),
    ensures
        ({
            let u = s.broken(l, ws, ts);
            &&& rows_ok(u.rows, n)
            &&& row_ok(u.row, n, u.col)
            &&& forall|r: int| 0 <= r < u.rows.len() ==> before(#[trigger] u.rows[r], u.row)
            &&& forall|i: int|
                0 <= i < n && l[i] != ' ' ==> #[trigger] shown(u.rows, i) || on_row(u.row, i)
            &&& 0 <= u.col <= gutter + n * (usize::MAX as int)
            &&& u.rows.len() == s.rows.len() + 1
            &&& u.row.len() <= n
        }),
{
    let u = s.broken(l, ws, ts);
    let k0 = s.row.len() as int;
    let sp = last_space(l, s.row, k0);
    lemma_last_space(l, s.row, k0);
    assert(0 <= n * (usize::MAX as int)) by (nonlinear_arith)
        requires
            0 <= n,
    ;
    if sp >= 0 {
        let tail = s.row.skip(sp + 1);
        let m = tail.len() as int;
        lemma_laid(l, ws, ts, tail, m, n);
        assert(m * (usize::MAX as int) <= n * (usize::MAX as int)) by (nonlinear_arith)
            requires
                0 <= m <= n,
        ;
        let head = s.row.take(sp);
        assert(u.rows == s.rows.push(head));
        assert(row_ok(head, n, s.col));
        assert forall|r: int| 0 <= r < u.rows.len() implies before(#[trigger] u.rows[r], u.row) by {
            if r < s.rows.len() {
                assert(before(s.rows[r], s.row));
                assert forall|j: int, k: int|
                    0 <= j < u.rows[r].len() && 0 <= k < u.row.len() implies (
                #[trigger] u.rows[r][j]).0 < (#[trigger] u.row[k]).0 by {
                    assert(u.row[k].0 == tail[k].0);
                    assert(tail[k] == s.row[sp + 1 + k]);
                }
            } else {
                assert forall|j: int, k: int|
                    0 <= j < u.rows[r].len() && 0 <= k < u.row.len() implies (
                #[trigger] u.rows[r][j]).0 < (#[trigger] u.row[k]).0 by {
                    assert(u.rows[r][j] == s.row[j]);
                    assert(u.row[k].0 == tail[k].0);
                    assert(tail[k] == s.row[sp + 1 + k]);
                }
            }
        }
        assert forall|r: int, q: int| 0 <= r < q < u.rows.len() implies before(
            #[trigger] u.rows[r],
            #[trigger] u.rows[q],
        ) by {
            if q < s.rows.len() {
                assert(before(s.rows[r], s.rows[q]));
            } else {
                assert(before(s.rows[r], s.row));
            }
        }
        assert forall|i: int| 0 <= i < n && l[i] != ' ' implies #[trigger] shown(u.rows, i)
            || on_row(u.row, i) by {
            assert(shown(s.rows, i) || on_row(s.row, i));
            if shown(s.rows, i) {
                let r = choose|r: int| 0 <= r < s.rows.len() && on_row(#[trigger] s.rows[r], i);
                assert(u.rows[r] == s.rows[r]);
            } else {
                let k = choose|k: int| 0 <= k < s.row.len() && (#[trigger] s.row[k]).0 == i;
                assert(k != sp);
                if k < sp {
                    assert(head[k].0 == i);
                    assert(on_row(u.rows[s.rows.len() as int], i));
                } else {
                    assert(tail[k - sp - 1] == s.row[k]);
                    assert(u.row[k - sp - 1].0 == i);
                }
            }
        }
    } else {
        assert(u.rows == s.rows.push(s.row));
        assert forall|r: int, q: int| 0 <= r < q < u.rows.len() implies before(
            #[trigger] u.rows[r],
            #[trigger] u.rows[q],
        ) by {
            if q < s.rows.len() {
                assert(before(s.rows[r], s.rows[q]));
            } else {
                assert(before(s.rows[r], s.row));
            }
        }
        assert forall|i: int| 0 <= i < n && l[i] != ' ' implies #[trigger] shown(u.rows, i)
            || on_row(u.row, i) by {
            assert(shown(s.rows, i) || on_row(s.row, i));
            if shown(s.rows, i) {
                let r = choose|r: int| 0 <= r < s.rows.len() && on_row(#[trigger] s.rows[r], i);
                assert(u.rows[r] == s.rows[r]);
            } else {
                assert(u.rows[s.rows.len() as int] == s.row);
            }
        }
    }
    assert forall|r: int| 0 <= r < u.rows.len() implies row_fits(
            #[trigger] u.rows[r],
            n,
        ) by {
        if r < s.rows.len() {
            let c = choose|col: int| row_ok(s.rows[r], n, col);
            assert(row_ok(u.rows[r], n, c));
        } else {
            assert(row_ok(u.rows[r], n, s.col));
        }
    }
}

proof fn lemma_wrapped(
    l: Seq<char>,
    ws: Seq<usize>,
    width: int,
    gutter: int,
    ts: int,
    n: int,
)
    requires
        0 < ts <= usize::MAX,
        0 <= gutter,
        0 <= n <= l.len(),
    ensures
        wrap_ok(l, ws, gutter, ts, n, wrapped(l, ws, width, gutter, ts, n)),
    decreases n,
{
    if n > 0 {
        lemma_wrapped(l, ws, width, gutter, ts, n - 1);
        let s = wrapped(l, ws, width, gutter, ts, n - 1);
        let u = if s.col + cell(l, ws, ts, n - 1, s.col) > width {
            lemma_broken(l, ws, gutter, ts, n - 1, s);
            s.broken(l, ws, ts)
        } else {
            s
        };
        let v = u.put(l, ws, ts, n - 1);
        let p = n - 1;
        assert(v == wrapped(l, ws, width, gutter, ts, n));
        lemma_cell(l, ws, ts, n - 1, u.col);
        assert((n - 1) * (usize::MAX as int) + usize::MAX == n * (usize::MAX as int))
            by (nonlinear_arith);
        assert forall|r: int| 0 <= r < v.rows.len() implies row_fits(
            #[trigger] v.rows[r],
            n,
        ) by {
            let c = choose|col: int| row_ok(u.rows[r], p, col);
            assert(row_ok(v.rows[r], n, c));
        }
        assert forall|r: int| 0 <= r < v.rows.len() implies before(#[trigger] v.rows[r], v.row) by {
            assert(before(u.rows[r], u.row));
            let c = choose|col: int| row_ok(u.rows[r], p, col);
            assert(row_ok(u.rows[r], p, c));
        }
        assert forall|i: int| 0 <= i < n && l[i] != ' ' implies #[trigger] shown(v.rows, i)
            || on_row(v.row, i) by {
            if i < n - 1 {
                assert(shown(u.rows, i) || on_row(u.row, i));
                if !shown(v.rows, i) {
                    let k = choose|k: int| 0 <= k < u.row.len() && (#[trigger] u.row[k]).0 == i;
                    assert(v.row[k].0 == i);
                }
            } else {
                assert(v.row[u.row.len() as int].0 == i);
            }
        }
        assert(rows_ok(v.rows, n));
    }
}

proof fn lemma_rows(l: Seq<char>, ws: Seq<usize>, width: int, gutter: int, ts: int)
    requires
        0 < ts <= usize::MAX,
        0 <= gutter,
    ensures
        rows_ok(rows_of(l, ws, width, gutter, ts), l.len() as int),
        0 < rows_of(l, ws, width, gutter, ts).len() <= l.len() + 1,
        width > 0 ==> forall|i: int|
            0 <= i < l.len() && l[i] != ' ' ==> shown(
                #[trigger] rows_of(l, ws, width, gutter, ts),
                i,
            ),
{
    let rows = rows_of(l, ws, width, gutter, ts);
    if width <= 0 {
        assert(row_ok(rows[0], l.len() as int, 0));
    } else {
        lemma_wrapped(l, ws, width, gutter, ts, l.len() as int);
        let s = wrapped(l, ws, width, gutter, ts, l.len() as int);
        assert forall|r: int| 0 <= r < rows.len() implies row_fits(
            #[trigger] rows[r],
            l.len() as int,
        ) by {
            if r < s.rows.len() {
                let c = choose|col: int| row_ok(s.rows[r], l.len() as int, col);
                assert(row_ok(rows[r], l.len() as int, c));
            } else {
                assert(row_ok(rows[r], l.len() as int, s.col));
            }
        }
        assert forall|r: int, q: int| 0 <= r < q < rows.len() implies before(
            #[trigger] rows[r],
            #[trigger] rows[q],
        ) by {
            if q < s.rows.len() {
                assert(before(s.rows[r], s.rows[q]));
            } else {
                assert(before(s.rows[r], s.row));
            }
        }
        assert forall|i: int| 0 <= i < l.len() && l[i] != ' ' implies shown(rows, i) by {
            assert(shown(s.rows, i) || on_row(s.row, i));
            if shown(s.rows, i) {
                let r = choose|r: int| 0 <= r < s.rows.len() && on_row(#[trigger] s.rows[r], i);
                assert(rows[r] == s.rows[r]);
            } else {
                assert(rows[s.rows.len() as int] == s.row);
            }
        }
    }
}

/// Wrapping keeps the characters in order and drops only spaces.
pub proof fn law_wrap_drops_only_spaces(
    l: Seq<char>,
    ws: Seq<usize>,
    width: int,
    gutter: int,
    ts: int,
    i: int,
)
    requires
        0 < ts <= usize::MAX,
        0 <= gutter,
        0 < width,
        0 <= i < l.len(),
    ensures
        rows_ok(rows_of(l, ws, width, gutter, ts), l.len() as int),
        shown(rows_of(l, ws, width, gutter, ts), i) || l[i] == ' ',
{
    lemma_rows(l, ws, width, gutter, ts);
}

proof fn lemma_started(l: Seq<char>, b: int, n: int, i: int)
    requires
        0 <= n <= i <= l.len(),
        text::off(l, i) == b,
    ensures
        cols::started(l, b, n) == i,
    decreases i - n,
{
    text::lemma_off_mono(l, n, i);
    if n < i {
        text::lemma_off_mono(l, n + 1, i);
        lemma_started(l, b, n + 1, i);
    }
}

proof fn lemma_seek(rows: Seq<Seq<(int, int)>>, n: int, r: int, k: int, q: int, j: int)
    requires
        rows_ok(rows, n),
        0 <= q < rows.len(),
        0 <= j < rows[q].len(),
        0 <= r,
        0 <= k,
        r < q || (r == q && k <= j),
    ensures
        seek(rows, rows[q][j].0, r, k) == Some((q, rows[q][j].1)),
    decreases rows.len() - r, rows[r].len() - k,
{
    let c = choose|col: int| row_ok(rows[q], n, col);
    assert(row_ok(rows[q], n, c));
    if k >= rows[r].len() {
        lemma_seek(rows, n, r + 1, 0, q, j);
    } else if r < q {
        assert(before(rows[r], rows[q]));
        assert(rows[r][k].0 < rows[q][j].0);
        lemma_seek(rows, n, r, k + 1, q, j);
    } else if k < j {
        assert(rows[q][k].0 < rows[q][j].0);
        lemma_seek(rows, n, r, k + 1, q, j);
    }
}

proof fn lemma_cell_at(row: Seq<(int, int)>, m: int, c: int, j: int, n: int)
    requires
        row_ok(row, m, c),
        0 <= j < n <= row.len(),
    ensures
        cell_at(row, row[j].1, n) == j,
    decreases n,
{
    if n - 1 > j {
        assert(row[j].1 < row[n - 1].1);
        lemma_cell_at(row, m, c, j, n - 1);
    }
}

/// The place of a character that is shown leads to it, and back from the
/// place to the character.
pub proof fn law_places_and_bytes_agree(
    l: Seq<char>,
    ws: Seq<usize>,
    width: int,
    gutter: int,
    ts: int,
    r: int,
    j: int,
)
    requires
        0 < ts <= usize::MAX,
        0 <= gutter,
        0 < width,
        0 <= r < rows_of(l, ws, width, gutter, ts).len(),
        0 <= j < rows_of(l, ws, width, gutter, ts)[r].len(),
    ensures
        ({
            let (i, c) = rows_of(l, ws, width, gutter, ts)[r][j];
            &&& pos_of(l, ws, text::off(l, i), width, gutter, ts) == (r, c)
            &&& byte_of(l, ws, r, c, width, gutter, ts) == text::off(l, i)
        }),
{
    let rows = rows_of(l, ws, width, gutter, ts);
    lemma_rows(l, ws, width, gutter, ts);
    let n = l.len() as int;
    let c = choose|col: int| row_ok(rows[r], n, col);
    assert(row_ok(rows[r], n, c));
    let (i, at) = rows[r][j];
    lemma_started(l, text::off(l, i), 0, i);
    lemma_seek(rows, n, 0, 0, r, j);
    let k = rows[r].len() as int;
    lemma_cell_at(rows[r], n, c, j, k);
    lemma_cell(l, ws, ts, rows[r][k - 1].0, rows[r][k - 1].1);
    if j < k - 1 {
        assert(rows[r][j].1 < rows[r][k - 1].1);
    }
}

// ── Wrapping ────────────────────────────────────────────────────────────

pub open spec fn row_view(v: Seq<(usize, u128)>) -> Seq<(int, int)> {
    Seq::new(v.len(), |i: int| (v[i].0 as int, v[i].1 as int))
}

pub open spec fn rows_view(v: Seq<Vec<(usize, u128)>>) -> Seq<Seq<(int, int)>> {
    Seq::new(v.len(), |i: int| row_view(v[i]@))
}

fn cell_width(v: &Vec<char>, ws: &Vec<usize>, ts: usize, i: usize, col: u128) -> (n: u128)
    requires
        i < v.len(),
        ts > 0,
    ensures
        n == cell(v@, ws@, ts as int, i as int, col as int),
        1 <= n <= usize::MAX,
{
    proof {
        lemma_cell(v@, ws@, ts as int, i as int, col as int);
    }
    if v[i] == '\t' {
        ts as u128 - col % (ts as u128)
    } else if i < ws.len() && ws[i] > 1 {
        ws[i] as u128
    } else {
        1
    }
}

fn find_space(v: &Vec<char>, row: &Vec<(usize, u128)>) -> (r: Option<usize>)
    requires
        forall|k: int| 0 <= k < row@.len() ==> (#[trigger] row@[k]).0 < v@.len(),
    ensures
        match r {
            Some(k) => k == last_space(v@, row_view(row@), row@.len() as int) && k < row@.len(),
            None => last_space(v@, row_view(row@), row@.len() as int) == -1,
        },
{
    let mut n: usize = row.len();
    while n > 0
        invariant
            n <= row.len(),
            forall|k: int| 0 <= k < row@.len() ==> (#[trigger] row@[k]).0 < v@.len(),
            last_space(v@, row_view(row@), row@.len() as int) == last_space(
                v@,
                row_view(row@),
                n as int,
            ),
        decreases n,
    {
        assert(row_view(row@)[n - 1].0 == row@[n - 1].0);
        if v[row[n - 1].0] == ' ' {
            return Some(n - 1);
        }
        n -= 1;
    }
    None
}

/// Lays the cells from `from` on anew.
fn lay(v: &Vec<char>, ws: &Vec<usize>, ts: usize, row: &Vec<(usize, u128)>, from: usize) -> (r: (
    Vec<(usize, u128)>,
    u128,
))
    requires
        ts > 0,
        from <= row.len() <= v.len(),
        row_ok(row_view(row@), v@.len() as int, u128::MAX as int),
    ensures
        (row_view(r.0@), r.1 as int) == laid(
            v@,
            ws@,
            ts as int,
            row_view(row@).skip(from as int),
            row@.len() - from,
        ),
{
    let ghost rv = row_view(row@);
    let ghost tail = rv.skip(from as int);
    let mut out: Vec<(usize, u128)> = Vec::new();
    let mut col: u128 = 0;
    let mut k: usize = from;
    assert(row_view(out@) =~= Seq::empty());
    while k < row.len()
        invariant
            ts > 0,
            from <= k <= row.len() <= v.len(),
            rv == row_view(row@),
            row_ok(rv, v@.len() as int, u128::MAX as int),
            tail == rv.skip(from as int),
            (row_view(out@), col as int) == laid(v@, ws@, ts as int, tail, k - from),
        decreases row.len() - k,
    {
        let ghost before = out@;
        proof {
            lemma_laid(v@, ws@, ts as int, tail, k - from, v@.len() as int);
            assert(tail[k - from] == rv[k as int]);
            assert(rv[k as int] == (row@[k as int].0 as int, row@[k as int].1 as int));
            assert((k - from) * (usize::MAX as int) <= (usize::MAX - 1) * (usize::MAX as int))
                by (nonlinear_arith)
                requires
                    k - from <= usize::MAX - 1,
            ;
            lemma_square();
        }
        let i: usize = row[k].0;
        let w: u128 = cell_width(v, ws, ts, i, col);
        out.push((i, col));
        assert(row_view(out@) =~= row_view(before).push((i as int, col as int)));
        col = col + w;
        k += 1;
    }
    (out, col)
}

proof fn lemma_square()
    ensures
        (usize::MAX - 1) * (usize::MAX as int) + usize::MAX + usize::MAX <= u128::MAX,
{
    assert((usize::MAX - 1) * (usize::MAX as int) + usize::MAX + usize::MAX <= u128::MAX)
        by (nonlinear_arith)
        requires
            0 <= usize::MAX <= 0xffff_ffff_ffff_ffff,
    ;
}

fn head_of(row: &Vec<(usize, u128)>, n: usize) -> (out: Vec<(usize, u128)>)
    requires
        n <= row.len(),
    ensures
        out@ == row@.take(n as int),
        row_view(out@) == row_view(row@).take(n as int),
{
    let mut out: Vec<(usize, u128)> = Vec::new();
    let mut k: usize = 0;
    while k < n
        invariant
            k <= n <= row.len(),
            out@ == row@.take(k as int),
        decreases n - k,
    {
        out.push(row[k]);
        k += 1;
    }
    assert(row_view(out@) =~= row_view(row@).take(n as int));
    out
}

/// Breaks a line into rows: for each row the indices of its characters with
/// the columns they start at.
pub fn wrap_simulate(
    v: &Vec<char>,
    ws: &Vec<usize>,
    width: usize,
    gutter: usize,
    ts: usize,
) -> (out: Vec<Vec<(usize, u128)>>)
    requires
        ts > 0,
    ensures
        rows_view(out@) == rows_of(v@, ws@, width as int, gutter as int, ts as int),
        out@.len() > 0,
        out@.len() <= v@.len() + 1,
        forall|r: int, k: int|
            0 <= r < out@.len() && 0 <= k < out@[r]@.len() ==> (#[trigger] out@[r]@[k]).0
                < v@.len(),
        forall|r: int, k: int|
            0 <= r < out@.len() && 0 <= k < out@[r]@.len() ==> (#[trigger] out@[r]@[k]).1
                + usize::MAX <= u128::MAX,
{
    let mut rows: Vec<Vec<(usize, u128)>> = Vec::new();
    let mut row: Vec<(usize, u128)> = Vec::new();
    assert(rows_view(rows@) =~= Seq::empty());
    assert(row_view(row@) =~= Seq::empty());
    if width == 0 {
        rows.push(row);
        assert(rows_view(rows@) =~= seq![Seq::empty()]);
        return rows;
    }
    let mut col: u128 = gutter as u128;
    let mut i: usize = 0;
    while i < v.len()
        invariant
            ts > 0,
            i <= v.len(),
            wrapped(v@, ws@, width as int, gutter as int, ts as int, i as int) == (WrapV {
                rows: rows_view(rows@),
                row: row_view(row@),
                col: col as int,
            }),
            forall|r: int, k: int|
                0 <= r < rows@.len() && 0 <= k < rows@[r]@.len() ==> (
                #[trigger] rows@[r]@[k]).0 < v@.len(),
            forall|r: int, k: int|
                0 <= r < rows@.len() && 0 <= k < rows@[r]@.len() ==> (
                #[trigger] rows@[r]@[k]).1 + usize::MAX <= u128::MAX,
        decreases v.len() - i,
    {
        let ghost s = wrapped(v@, ws@, width as int, gutter as int, ts as int, i as int);
        let ghost r0 = rows@;
        let ghost w0 = row@;
        let ghost m = usize::MAX as int;
        proof {
            lemma_wrapped(v@, ws@, width as int, gutter as int, ts as int, i as int);
            assert(i * m <= (usize::MAX - 1) * m) by (nonlinear_arith)
                requires
                    i <= usize::MAX - 1,
                    m >= 0,
            ;
            lemma_square();
            assert forall|k: int| 0 <= k < row@.len() implies (#[trigger] row@[k]).0 < v@.len()
                && row@[k].1 + usize::MAX <= u128::MAX by {
                assert(row_view(row@)[k] == (row@[k].0 as int, row@[k].1 as int));
            }
            assert(row_view(row@).len() == row@.len());
            assert(row_ok(row_view(row@), v@.len() as int, u128::MAX as int));
        }
        let w: u128 = cell_width(v, ws, ts, i, col);
        if col + w > width as u128 {
            proof {
                lemma_broken(v@, ws@, gutter as int, ts as int, i as int, s);
            }
            match find_space(v, &row) {
                Some(sp) => {
                    let (tail, c) = lay(v, ws, ts, &row, sp + 1);
                    rows.push(head_of(&row, sp));
                    row = tail;
                    col = c;
                    assert(rows_view(rows@) =~= rows_view(r0).push(row_view(w0).take(sp as int)));
                },
                None => {
                    let mut full: Vec<(usize, u128)> = Vec::new();
                    std::mem::swap(&mut full, &mut row);
                    rows.push(full);
                    col = 0;
                    assert(rows_view(rows@) =~= rows_view(r0).push(row_view(w0)));
                    assert(row_view(row@) =~= Seq::empty());
                },
            }
            assert(s.broken(v@, ws@, ts as int) == (WrapV {
                rows: rows_view(rows@),
                row: row_view(row@),
                col: col as int,
            }));
            assert forall|r: int, k: int|
                0 <= r < rows@.len() && 0 <= k < rows@[r]@.len() implies (
            #[trigger] rows@[r]@[k]).0 < v@.len() && rows@[r]@[k].1 + usize::MAX <= u128::MAX by {
                if r < r0.len() {
                    assert(rows@[r] == r0[r]);
                } else {
                    assert(rows@[r]@[k] == w0[k]);
                }
            }
        }
        let ghost w1 = row@;
        let w2: u128 = cell_width(v, ws, ts, i, col);
        row.push((i, col));
        assert(row_view(row@) =~= row_view(w1).push((i as int, col as int)));
        col = col + w2;
        i += 1;
    }
    proof {
        let n = v@.len() as int;
        let m = usize::MAX as int;
        lemma_wrapped(v@, ws@, width as int, gutter as int, ts as int, n);
        lemma_rows(v@, ws@, width as int, gutter as int, ts as int);
        if n > 0 {
            assert(n * m <= m * m) by (nonlinear_arith)
                requires
                    0 <= n <= m,
            ;
            lemma_wrapped(v@, ws@, width as int, gutter as int, ts as int, n - 1);
            let s1 = wrapped(v@, ws@, width as int, gutter as int, ts as int, n - 1);
            assert((n - 1) * m <= (m - 1) * m) by (nonlinear_arith)
                requires
                    n <= m,
                    m >= 0,
            ;
            lemma_square();
            lemma_broken(v@, ws@, gutter as int, ts as int, n - 1, s1);
        }
        assert forall|k: int| 0 <= k < row@.len() implies (#[trigger] row@[k]).0 < v@.len()
            && row@[k].1 + usize::MAX <= u128::MAX by {
            let rv = row_view(row@);
            assert(rv[k] == (row@[k].0 as int, row@[k].1 as int));
            assert(rv[rv.len() - 1] == (row@[rv.len() - 1].0 as int, row@[rv.len() - 1].1 as int));
            if k < rv.len() - 1 {
                assert(rv[k].1 < rv[rv.len() - 1].1);
            }
        }
    }
    let ghost r0 = rows@;
    let ghost w0 = row@;
    rows.push(row);
    assert(rows_view(rows@) =~= rows_view(r0).push(row_view(w0)));
    rows
}

/// Number of rows that a line takes.
pub fn wrap_row_count(
    v: &Vec<char>,
    ws: &Vec<usize>,
    width: usize,
    gutter: usize,
    ts: usize,
) -> (n: usize)
    requires
        ts > 0,
    ensures
        n == rows_of(v@, ws@, width as int, gutter as int, ts as int).len(),
        n >= 1,
{
    let rows: Vec<Vec<(usize, u128)>> = wrap_simulate(v, ws, width, gutter, ts);
    assert(rows_view(rows@).len() == rows@.len());
    rows.len()
}

fn count_started(v: &Vec<char>, b: usize) -> (n: usize)
    ensures
        n == cols::started(v@, b as int, 0),
        n <= v@.len(),
{
    let mut n: usize = 0;
    let mut at: usize = 0;
    while n < v.len() && at < b
        invariant
            n <= v.len(),
            at < b ==> at == text::off(v@, n as int),
            at >= b ==> at == b && text::off(v@, n as int) >= b,
            cols::started(v@, b as int, 0) == cols::started(v@, b as int, n as int),
        decreases v.len() - n,
    {
        let k: usize = char_len(v[n]);
        at = if k >= b - at {
            b
        } else {
            at + k
        };
        n += 1;
    }
    n
}

/// Row and column at which byte `b` of a line comes to stand.
pub fn wrap_pos(
    v: &Vec<char>,
    ws: &Vec<usize>,
    b: usize,
    width: usize,
    gutter: usize,
    ts: usize,
) -> (p: (usize, u128))
    requires
        ts > 0,
    ensures
        (p.0 as int, p.1 as int) == pos_of(
            v@,
            ws@,
            b as int,
            width as int,
            gutter as int,
            ts as int,
        ),
{
    if width == 0 {
        return (0, gutter as u128);
    }
    let rows: Vec<Vec<(usize, u128)>> = wrap_simulate(v, ws, width, gutter, ts);
    let ghost rv = rows_of(v@, ws@, width as int, gutter as int, ts as int);
    assert(rv.len() == rows@.len());
    let t: usize = count_started(v, b);
    let mut r: usize = 0;
    while r < rows.len()
        invariant
            rv == rows_view(rows@),
            rv == rows_of(v@, ws@, width as int, gutter as int, ts as int),
            r <= rows.len(),
            rv.len() == rows@.len(),
            width > 0,
            t == cols::started(v@, b as int, 0),
            seek(rv, t as int, 0, 0) == seek(rv, t as int, r as int, 0),
        decreases rows.len() - r,
    {
        let mut k: usize = 0;
        assert(rv[r as int] == row_view(rows@[r as int]@));
        while k < rows[r].len()
            invariant
                rv == rows_view(rows@),
                rv == rows_of(v@, ws@, width as int, gutter as int, ts as int),
                r < rows.len(),
                rv.len() == rows@.len(),
                rv[r as int] == row_view(rows@[r as int]@),
                width > 0,
                k <= rows@[r as int]@.len(),
                t == cols::started(v@, b as int, 0),
                seek(rv, t as int, 0, 0) == seek(rv, t as int, r as int, k as int),
            decreases rows@[r as int]@.len() - k,
        {
            assert(rv[r as int][k as int] == (
                rows@[r as int]@[k as int].0 as int,
                rows@[r as int]@[k as int].1 as int,
            ));
            if rows[r][k].0 >= t {
                return (r, rows[r][k].1);
            }
            k += 1;
        }
        r += 1;
    }
    let n: usize = rows.len();
    let last: usize = rows[n - 1].len();
    assert(rv[n - 1] == row_view(rows@[n - 1]@));
    let c: u128 = if last > 0 {
        assert(rv[n - 1][last - 1] == (
            rows@[n - 1]@[last - 1].0 as int,
            rows@[n - 1]@[last - 1].1 as int,
        ));
        let at: u128 = rows[n - 1][last - 1].1;
        at + cell_width(v, ws, ts, rows[n - 1][last - 1].0, at)
    } else {
        gutter as u128
    };
    if c >= width as u128 - 1 {
        (n, 0)
    } else {
        (n - 1, c)
    }
}

/// Byte of the character that stands at a row and column.
pub fn visual_to_byte(
    v: &Vec<char>,
    ws: &Vec<usize>,
    r: usize,
    col: u128,
    width: usize,
    gutter: usize,
    ts: usize,
) -> (b: usize)
    requires
        ts > 0,
        text::blen(v@) <= usize::MAX,
    ensures
        b == byte_of(v@, ws@, r as int, col as int, width as int, gutter as int, ts as int),
        b <= text::blen(v@),
{
    let rows: Vec<Vec<(usize, u128)>> = wrap_simulate(v, ws, width, gutter, ts);
    let ghost rv = rows_of(v@, ws@, width as int, gutter as int, ts as int);
    assert(rv.len() == rows@.len());
    proof {
        assert forall|i: int| 0 <= i <= v@.len() implies #[trigger] text::off(v@, i)
            <= text::blen(v@) by {
            text::lemma_off_mono(v@, i, v@.len() as int);
        }
    }
    if r >= rows.len() {
        return offset_of(v, v.len());
    }
    assert(rv[r as int] == row_view(rows@[r as int]@));
    let n: usize = rows[r].len();
    if n == 0 {
        let mut q: usize = r + 1;
        while q < rows.len()
            invariant
                rv == rows_view(rows@),
                rv.len() == rows@.len(),
                r < q <= rows.len(),
                rv[r as int].len() == 0,
                rv == rows_of(v@, ws@, width as int, gutter as int, ts as int),
                first_from(rv, r + 1) == first_from(rv, q as int),
                text::blen(v@) <= usize::MAX,
                forall|a: int, k: int|
                    0 <= a < rows@.len() && 0 <= k < rows@[a]@.len() ==> (
                    #[trigger] rows@[a]@[k]).0 < v@.len(),
                forall|i: int|
                    0 <= i <= v@.len() ==> #[trigger] text::off(v@, i) <= text::blen(v@),
            decreases rows.len() - q,
        {
            assert(rv[q as int] == row_view(rows@[q as int]@));
            if rows[q].len() > 0 {
                assert(rv[q as int][0].0 == rows@[q as int]@[0].0);
                return offset_of(v, rows[q][0].0);
            }
            q += 1;
        }
        return offset_of(v, v.len());
    }
    assert(rv[r as int][n - 1] == (rows@[r as int]@[n - 1].0 as int, rows@[r as int]@[n - 1].1 as int));
    let at: u128 = rows[r][n - 1].1;
    if col >= at && col - at >= cell_width(v, ws, ts, rows[r][n - 1].0, at) {
        return offset_of(v, rows[r][n - 1].0 + 1);
    }
    let mut k: usize = n;
    while k > 1 && rows[r][k - 1].1 > col
        invariant
            1 <= k <= n,
            n == rows@[r as int]@.len(),
            r < rows@.len(),
            rv[r as int] == row_view(rows@[r as int]@),
            cell_at(rv[r as int], col as int, n as int) == cell_at(
                rv[r as int],
                col as int,
                k as int,
            ),
        decreases k,
    {
        assert(rv[r as int][k - 1].1 == rows@[r as int]@[k - 1].1);
        k -= 1;
    }
    assert(rv[r as int][k - 1] == (rows@[r as int]@[k - 1].0 as int, rows@[r as int]@[k - 1].1 as int));
    offset_of(v, rows[r][k - 1].0)
}

/// Each cell of the row stands before column `width`.
pub open spec fn within(row: Seq<(int, int)>, width: int) -> bool {
    forall|k: int| 0 <= k < row.len() ==> (#[trigger] row[k]).1 < width
}

proof fn lemma_climbs(row: Seq<(int, int)>, j: int, k: int)
    requires
        0 <= j <= k < row.len(),
        forall|a: int, b: int| 0 <= a < b < row.len() ==> (#[trigger] row[a]).1 < (#[trigger] row[b]).1,
    ensures
        row[k].1 >= row[j].1 + (k - j),
    decreases k - j,
{
    if j < k {
        lemma_climbs(row, j, k - 1);
        assert(row[k - 1].1 < row[k].1);
    }
}

proof fn lemma_laid_within(l: Seq<char>, ws: Seq<usize>, ts: int, tail: Seq<(int, int)>, n: int)
    requires
        0 <= n <= tail.len(),
        forall|k: int|
            0 <= k < tail.len() ==> l[(#[trigger] tail[k]).0] != '\t' && width_at(ws, tail[k].0) == 1,
    ensures
        laid(l, ws, ts, tail, n).1 == n,
        within(laid(l, ws, ts, tail, n).0, n),
    decreases n,
{
    if n > 0 {
        lemma_laid_within(l, ws, ts, tail, n - 1);
        assert(l[tail[n - 1].0] != '\t');
    }
}

proof fn lemma_wrapped_within(
    l: Seq<char>,
    ws: Seq<usize>,
    width: int,
    gutter: int,
    ts: int,
    n: int,
)
    requires
        0 < ts <= usize::MAX,
        0 < width,
        0 <= gutter <= width,
        0 <= n <= l.len(),
        forall|i: int| 0 <= i < l.len() ==> #[trigger] l[i] != '\t' && width_at(ws, i) == 1,
    ensures
        ({
            let s = wrapped(l, ws, width, gutter, ts, n);
            &&& forall|r: int| 0 <= r < s.rows.len() ==> within(#[trigger] s.rows[r], width)
            &&& within(s.row, width)
            &&& s.col <= width
        }),
    decreases n,
{
    if n > 0 {
        lemma_wrapped_within(l, ws, width, gutter, ts, n - 1);
        lemma_wrapped(l, ws, width, gutter, ts, n - 1);
        let s = wrapped(l, ws, width, gutter, ts, n - 1);
        let e = wrapped(l, ws, width, gutter, ts, n);
        assert(l[n - 1] != '\t' && width_at(ws, n - 1) == 1);
        if s.col + 1 > width {
            let sp = last_space(l, s.row, s.row.len() as int);
            lemma_last_space(l, s.row, s.row.len() as int);
            let b = s.broken(l, ws, ts);
            if sp >= 0 {
                let tail = s.row.skip(sp + 1);
                let m = tail.len() as int;
                assert forall|k: int| 0 <= k < tail.len() implies l[(#[trigger] tail[k]).0] != '\t'
                    && width_at(ws, tail[k].0) == 1 by {
                    assert(tail[k] == s.row[sp + 1 + k]);
                    let i = tail[k].0;
                    assert(0 <= i < n - 1);
                    assert(l[i] != '\t');
                }
                lemma_laid_within(l, ws, ts, tail, m);
                lemma_climbs(s.row, sp, s.row.len() - 1);
                assert(s.row[sp].1 >= 0);
                assert(s.row[s.row.len() - 1].1 < s.col);
                assert(b.col == m && m + 1 <= width);
                assert(within(s.row.take(sp), width)) by {
                    assert forall|k: int| 0 <= k < sp implies (#[trigger] s.row.take(sp)[k]).1
                        < width by {
                        assert(s.row.take(sp)[k] == s.row[k]);
                    }
                }
            }
            assert(b.col + 1 <= width);
            assert(e == b.put(l, ws, ts, n - 1));
            assert forall|r: int| 0 <= r < e.rows.len() implies within(#[trigger] e.rows[r], width) by {
                if r < s.rows.len() {
                    assert(e.rows[r] == s.rows[r]);
                }
            }
        }
    }
}

/// Where every character takes one column, no row goes past the width.
pub proof fn law_rows_fit(
    l: Seq<char>,
    ws: Seq<usize>,
    width: int,
    gutter: int,
    ts: int,
    r: int,
)
    requires
        0 < ts <= usize::MAX,
        0 < width,
        0 <= gutter <= width,
        forall|i: int| 0 <= i < l.len() ==> #[trigger] l[i] != '\t' && width_at(ws, i) == 1,
        0 <= r < rows_of(l, ws, width, gutter, ts).len(),
    ensures
        within(rows_of(l, ws, width, gutter, ts)[r], width),
{
    lemma_wrapped_within(l, ws, width, gutter, ts, l.len() as int);
}

} // verus!
