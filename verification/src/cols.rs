//! Display columns. A tab reaches to the next multiple of the tab stop;
//! every other character takes one column.

use vstd::prelude::*;
use crate::text;
use crate::text::{char_len, chars_of};

verus! {

pub open spec fn sat(n: int) -> int {
    if n <= usize::MAX {
        n
    } else {
        usize::MAX as int
    }
}

/// Columns that character `c` takes at column `col`.
pub open spec fn cell(c: char, col: int, ts: int) -> int {
    if c == '\t' {
        ts - col % ts
    } else {
        1
    }
}

/// Column after the first `n` characters.
pub open spec fn col_after(l: Seq<char>, n: int, ts: int) -> int
    decreases n,
{
    if n <= 0 {
        0
    } else {
        let c = col_after(l, n - 1, ts);
        sat(c + cell(l[n - 1], c, ts))
    }
}

/// Number of characters that start before byte `b`.
pub open spec fn started(l: Seq<char>, b: int, n: int) -> int
    decreases l.len() - n,
{
    if n < 0 || n >= l.len() || text::off(l, n) >= b {
        n
    } else {
        started(l, b, n + 1)
    }
}

/// Display column of byte `b`.
pub open spec fn column(l: Seq<char>, b: int, ts: int) -> int {
    col_after(l, started(l, b, 0), ts)
}

/// First index at or after `n` whose character covers column `target` or
/// starts past it; the length of the line when no character does.
pub open spec fn reach_col(l: Seq<char>, target: int, ts: int, n: int) -> int
    decreases l.len() - n,
{
    if n < 0 || n >= l.len() || col_after(l, n, ts) >= target || col_after(l, n, ts) + cell(
        l[n],
        col_after(l, n, ts),
        ts,
    ) > target {
        n
    } else {
        reach_col(l, target, ts, n + 1)
    }
}

/// Index of the character at display column `target`, or the line's end.
pub open spec fn index_at_col(l: Seq<char>, target: int, ts: int) -> int {
    reach_col(l, target, ts, 0)
}

/// What stands at display column `target`: the character that starts there,
/// a space inside a tab, nothing past the end of the line.
pub open spec fn glyph_at(l: Seq<char>, target: int, ts: int, n: int) -> Option<char>
    decreases l.len() - n,
{
    if n < 0 || n >= l.len() {
        None
    } else {
        let d = col_after(l, n, ts);
        let w = cell(l[n], d, ts);
        if d == target {
            Some(l[n])
        } else if d < target < d + w {
            Some(' ')
        } else {
            glyph_at(l, target, ts, n + 1)
        }
    }
}

pub proof fn lemma_reach_col(l: Seq<char>, target: int, ts: int, n: int)
    requires
        0 <= n <= l.len(),
    ensures
        n <= reach_col(l, target, ts, n) <= l.len(),
    decreases l.len() - n,
{
    if n < l.len() && !(col_after(l, n, ts) >= target || col_after(l, n, ts) + cell(
        l[n],
        col_after(l, n, ts),
        ts,
    ) > target) {
        lemma_reach_col(l, target, ts, n + 1);
    }
}

/// Columns that a character takes at column `col`.
pub fn cell_width(c: char, col: usize, ts: usize) -> (w: usize)
    requires
        ts > 0,
    ensures
        w == cell(c, col as int, ts as int),
        1 <= w <= ts || w == 1,
{
    if c == '\t' {
        ts - col % ts
    } else {
        1
    }
}

/// Width of a line in columns.
pub fn visual_width_of(s: &str, tabstop: usize) -> (n: usize)
    requires
        tabstop > 0,
    ensures
        n == col_after(s@, s@.len() as int, tabstop as int),
{
    let v: Vec<char> = chars_of(s);
    let mut i: usize = 0;
    let mut col: usize = 0;
    while i < v.len()
        invariant
            i <= v.len(),
            v@ == s@,
            tabstop > 0,
            col == col_after(s@, i as int, tabstop as int),
        decreases v.len() - i,
    {
        col = col.saturating_add(cell_width(v[i], col, tabstop));
        i += 1;
    }
    col
}

/// Display column of a byte position on a line.
pub fn display_col(line: &str, byte_col: usize, tabstop: usize) -> (n: usize)
    requires
        tabstop > 0,
    ensures
        n == column(line@, byte_col as int, tabstop as int),
{
    let v: Vec<char> = chars_of(line);
    let mut i: usize = 0;
    let mut col: usize = 0;
    let mut byte: usize = 0;
    while i < v.len() && byte < byte_col
        invariant
            i <= v.len(),
            v@ == line@,
            tabstop > 0,
            text::blen(line@) <= usize::MAX,
            byte == text::off(line@, i as int),
            col == col_after(line@, i as int, tabstop as int),
            started(line@, byte_col as int, 0) == started(line@, byte_col as int, i as int),
        decreases v.len() - i,
    {
        proof {
            text::lemma_off_mono(line@, i + 1, line@.len() as int);
        }
        col = col.saturating_add(cell_width(v[i], col, tabstop));
        byte = byte + char_len(v[i]);
        i += 1;
    }
    col
}

/// Byte offset of the character at display column `target_col`, or of the
/// line's end, and the column at which it starts.
pub fn byte_at_or_past_col(line: &str, target_col: usize, tabstop: usize) -> (r: (usize, usize))
    requires
        tabstop > 0,
    ensures
        ({
            let n = index_at_col(line@, target_col as int, tabstop as int);
            &&& 0 <= n <= line@.len()
            &&& r.0 == text::off(line@, n)
            &&& r.1 == col_after(line@, n, tabstop as int)
        }),
        r.0 <= text::blen(line@),
{
    let v: Vec<char> = chars_of(line);
    let mut i: usize = 0;
    let mut col: usize = 0;
    let mut byte: usize = 0;
    while i < v.len() && col < target_col && cell_width(v[i], col, tabstop) <= target_col - col
        invariant
            i <= v.len(),
            v@ == line@,
            tabstop > 0,
            text::blen(line@) <= usize::MAX,
            byte == text::off(line@, i as int),
            col == col_after(line@, i as int, tabstop as int),
            reach_col(line@, target_col as int, tabstop as int, 0) == reach_col(
                line@,
                target_col as int,
                tabstop as int,
                i as int,
            ),
        decreases v.len() - i,
    {
        proof {
            text::lemma_off_mono(line@, i + 1, line@.len() as int);
        }
        col = col + cell_width(v[i], col, tabstop);
        byte = byte + char_len(v[i]);
        i += 1;
    }
    proof {
        text::lemma_off_mono(line@, i as int, line@.len() as int);
    }
    (byte, col)
}

/// The character at display column `target`; a space inside a tab.
pub fn char_at_display_col(line: &str, target: usize, ts: usize) -> (r: Option<char>)
    requires
        ts > 0,
    ensures
        r == glyph_at(line@, target as int, ts as int, 0),
{
    let v: Vec<char> = chars_of(line);
    let mut i: usize = 0;
    let mut d: usize = 0;
    while i < v.len()
        invariant
            i <= v.len(),
            v@ == line@,
            ts > 0,
            d == col_after(line@, i as int, ts as int),
            glyph_at(line@, target as int, ts as int, 0) == glyph_at(
                line@,
                target as int,
                ts as int,
                i as int,
            ),
        decreases v.len() - i,
    {
        if d == target {
            return Some(v[i]);
        }
        let w: usize = cell_width(v[i], d, ts);
        if d < target && target - d < w {
            return Some(' ');
        }
        d = d.saturating_add(w);
        i += 1;
    }
    None
}

proof fn lemma_cell(c: char, col: int, ts: int)
    requires
        ts > 0,
    ensures
        1 <= cell(c, col, ts) <= (if ts > 1 {
            ts
        } else {
            1
        }),
{
    vstd::arithmetic::div_mod::lemma_mod_bound(col, ts);
}

/// Where columns do not run out, each character starts right after the one
/// before it.
pub proof fn lemma_col_mono(l: Seq<char>, i: int, j: int, ts: int)
    requires
        ts > 0,
        0 <= i <= j,
        col_after(l, j, ts) < usize::MAX,
    ensures
        0 <= col_after(l, i, ts),
        col_after(l, i, ts) + (j - i) <= col_after(l, j, ts),
        i < j ==> col_after(l, i + 1, ts) == col_after(l, i, ts) + cell(
            l[i],
            col_after(l, i, ts),
            ts,
        ),
        i < j ==> col_after(l, i + 1, ts) <= col_after(l, j, ts),
    decreases j,
{
    if i < j {
        lemma_cell(l[j - 1], col_after(l, j - 1, ts), ts);
        lemma_col_nonneg(l, j - 1, ts);
        lemma_col_mono(l, i, j - 1, ts);
    } else {
        lemma_col_nonneg(l, i, ts);
    }
}

proof fn lemma_col_nonneg(l: Seq<char>, n: int, ts: int)
    requires
        ts > 0,
    ensures
        0 <= col_after(l, n, ts) <= usize::MAX,
    decreases n,
{
    if n > 0 {
        lemma_col_nonneg(l, n - 1, ts);
        lemma_cell(l[n - 1], col_after(l, n - 1, ts), ts);
    }
}

pub proof fn lemma_started(l: Seq<char>, n: int, k: int)
    requires
        0 <= k <= n <= l.len(),
    ensures
        started(l, text::off(l, n), k) == n,
    decreases n - k,
{
    text::lemma_off_mono(l, k, n);
    if k < n {
        lemma_started(l, n, k + 1);
    }
}

proof fn lemma_reached(l: Seq<char>, target: int, ts: int, n: int, k: int)
    requires
        ts > 0,
        0 <= k <= n <= l.len(),
        col_after(l, n, ts) < usize::MAX,
        col_after(l, n, ts) <= target,
        n < l.len() ==> target < col_after(l, n, ts) + cell(l[n], col_after(l, n, ts), ts),
    ensures
        reach_col(l, target, ts, k) == n,
    decreases n - k,
{
    lemma_col_mono(l, k, n, ts);
    if k < n {
        lemma_reached(l, target, ts, n, k + 1);
    }
}

/// The column of a character leads back to the character: it is the one found
/// at that column. Past the largest column there is nothing to tell characters
/// apart by.
pub proof fn law_column_leads_back(l: Seq<char>, n: int, ts: int)
    requires
        ts > 0,
        0 <= n <= l.len(),
        column(l, text::off(l, n), ts) < usize::MAX,
    ensures
        index_at_col(l, column(l, text::off(l, n), ts), ts) == n,
        column(l, text::off(l, n), ts) == col_after(l, n, ts),
{
    lemma_started(l, n, 0);
    let c = col_after(l, n, ts);
    lemma_cell(l[n], c, ts);
    lemma_reached(l, c, ts, n, 0);
}

/// The columns that a character covers, all those of a tab among them, lead to
/// that character.
pub proof fn law_columns_inside(l: Seq<char>, n: int, target: int, ts: int)
    requires
        ts > 0,
        0 <= n < l.len(),
        col_after(l, n, ts) < usize::MAX,
        col_after(l, n, ts) <= target < col_after(l, n, ts) + cell(l[n], col_after(l, n, ts), ts),
    ensures
        index_at_col(l, target, ts) == n,
{
    lemma_reached(l, target, ts, n, 0);
}

/// Columns past the last character lead to the end of the line.
pub proof fn law_columns_past(l: Seq<char>, target: int, ts: int)
    requires
        ts > 0,
        col_after(l, l.len() as int, ts) < usize::MAX,
        target >= col_after(l, l.len() as int, ts),
    ensures
        index_at_col(l, target, ts) == l.len(),
{
    lemma_reached(l, target, ts, l.len() as int, 0);
}

} // verus!
