//! What holds of the editor as a whole.

use vstd::prelude::*;
use crate::buffer;
use crate::buffer::BufV;
use crate::cols;
use crate::editor::cursor;
use crate::editor::markup;
use crate::editor::ops;
use crate::editor::state;
use crate::editor::state::{ActionV, EdV, Pending};
use crate::editor::substitute;
use crate::editor::substitute::SubstV;
use crate::editor::typing;
use crate::lines;
use crate::mode::Mode;
use crate::pattern;
use crate::strs;
use crate::text;

verus! {

/// `b` is within a compound that was begun at `b0`.
spec fn within(b0: BufV, b: BufV) -> bool {
    &&& b.wf()
    &&& b.depth == 1
    &&& b.base == b0.base
    &&& b.nodes == b0.nodes
    &&& b.head == b0.head
}

/// `b` is at most one step of the history behind `b0`, and that step leads
/// back to its text.
pub open spec fn at_most_one_step(b0: BufV, b: BufV) -> bool {
    &&& b.wf()
    &&& b.calm()
    &&& b.nodes.len() <= b0.nodes.len() + 1
    &&& b.text == b0.text || b.undo().0.text == b0.text
}

proof fn lemma_begin(b: BufV)
    requires
        b.wf(),
        b.calm(),
    ensures
        within(b, b.begin()),
        b.begin().text == b.text,
{
}

proof fn lemma_edit_within(b0: BufV, s: EdV, a: int, b: int, r: Seq<char>)
    requires
        within(b0, s.buf),
    ensures
        within(b0, s.edit(a, b, r).buf),
{
    let t = s.buf.text;
    let lo = state::legal(t, a);
    let hi = state::max(lo, state::legal(t, b));
    cursor::lemma_legal(t, a);
    cursor::lemma_legal(t, b);
    buffer::lemma_apply_wf(s.buf, lo, hi, r);
}

proof fn lemma_close(b0: BufV, b: BufV)
    requires
        b0.wf(),
        b0.calm(),
        within(b0, b),
    ensures
        at_most_one_step(b0, b.end()),
        b.end().text == b.text,
{
    assert(b0.pend =~= Seq::empty());
    assert(b0.text == buffer::text_at(b0.base, b0.nodes, b0.head));
    buffer::lemma_end_wf(b);
    if b.pend.len() > 0 {
        buffer::law_compound_is_one_step(b);
    } else {
        assert(b.pend =~= Seq::empty());
        assert(b.text == b0.text);
    }
}

proof fn lemma_one_edit(s: EdV, a: int, b: int, r: Seq<char>)
    requires
        s.buf.wf(),
        s.buf.calm(),
    ensures
        at_most_one_step(s.buf, s.open_undo().edit(a, b, r).close_undo().buf),
        at_most_one_step(s.buf, s.edit(a, b, r).buf),
{
    lemma_begin(s.buf);
    lemma_edit_within(s.buf, s.open_undo(), a, b, r);
    lemma_close(s.buf, s.open_undo().edit(a, b, r).buf);
    let t = s.buf.text;
    let lo = state::legal(t, a);
    let hi = state::max(lo, state::legal(t, b));
    cursor::lemma_legal(t, a);
    cursor::lemma_legal(t, b);
    buffer::lemma_apply_wf(s.buf, lo, hi, r);
    buffer::law_apply_undo_redo(s.buf, lo, hi, r);
}

proof fn lemma_same(b: BufV)
    requires
        b.wf(),
        b.calm(),
    ensures
        at_most_one_step(b, b),
{
}

/// After any edit, `u` brings the text back.
pub proof fn law_undo_takes_an_edit_back(s: EdV, a: int, b: int, r: Seq<char>)
    requires
        s.buf.wf(),
        s.buf.calm(),
    ensures
        s.edit(a, b, r).undo().buf.text == s.buf.text,
{
    reveal(EdV::undo);
    let t = s.buf.text;
    let lo = state::legal(t, a);
    let hi = state::max(lo, state::legal(t, b));
    cursor::lemma_legal(t, a);
    cursor::lemma_legal(t, b);
    buffer::law_apply_undo_redo(s.buf, lo, hi, r);
}

/// A redo after an undo brings the text back that was undone.
pub proof fn law_redo_takes_an_undo_back(s: EdV, a: int, b: int, r: Seq<char>)
    requires
        s.buf.wf(),
        s.buf.calm(),
    ensures
        s.edit(a, b, r).undo().redo().buf.text == s.edit(a, b, r).buf.text,
{
    reveal(EdV::undo);
    reveal(EdV::redo);
    let t = s.buf.text;
    let lo = state::legal(t, a);
    let hi = state::max(lo, state::legal(t, b));
    cursor::lemma_legal(t, a);
    cursor::lemma_legal(t, b);
    buffer::law_apply_undo_redo(s.buf, lo, hi, r);
}

proof fn lemma_subst_lines(b0: BufV, s: EdV, n: int, p: Seq<char>, r: Seq<char>, global: bool)
    requires
        within(b0, s.buf),
    ensures
        within(b0, s.subst_lines(n, p, r, global).0.buf),
    decreases n,
{
    if n > 0 {
        lemma_subst_at(b0, s, n - 1, p, r, global);
        lemma_subst_lines(b0, s.subst_at(n - 1, p, r, global), n - 1, p, r, global);
    }
}

proof fn lemma_subst_at(b0: BufV, s: EdV, k: int, p: Seq<char>, r: Seq<char>, global: bool)
    requires
        within(b0, s.buf),
    ensures
        within(b0, s.subst_at(k, p, r, global).buf),
{
    let l = s.line_text(k);
    let o = lines::line_off(s.buf.text, k);
    lemma_edit_within(
        b0,
        s,
        o,
        o + text::blen(l),
        substitute::subst_line(p, l, r, global),
    );
}

/// A substitution, on however many lines, is one step of the history.
pub proof fn law_substitution_is_one_step(s: EdV, whole: bool, x: SubstV)
    requires
        s.buf.wf(),
        s.buf.calm(),
    ensures
        at_most_one_step(s.buf, s.substitute(whole, x).buf),
{
    reveal(EdV::substitute);
    let p = substitute::subst_regex(x);
    lemma_same(s.buf);
    if pattern::regex_error(p) is None {
        let u = s.open_undo();
        lemma_begin(s.buf);
        lemma_subst_lines(s.buf, u, s.line_count(), p, x.replacement, x.global);
        lemma_subst_at(s.buf, u, s.line, p, x.replacement, x.global);
        let t = if whole {
            u.subst_lines(s.line_count(), p, x.replacement, x.global).0
        } else {
            u.subst_at(s.line, p, x.replacement, x.global)
        };
        lemma_close(s.buf, t.buf);
    }
}

/// Pasted text, of any length, is one step of the history.
pub proof fn law_paste_is_one_step(s: EdV, raw: Seq<char>)
    requires
        s.buf.wf(),
        s.buf.calm(),
    ensures
        at_most_one_step(s.buf, s.pasted(raw).buf),
{
    reveal(EdV::pasted);
    lemma_same(s.buf);
    lemma_one_edit(s, s.cursor(), s.cursor(), typing::plain_breaks(raw, 0));
}

proof fn lemma_put_rows(b0: BufV, s: EdV, rows: Seq<Seq<char>>, i: int, v: int, n: int, ts: int)
    requires
        within(b0, s.buf),
    ensures
        within(b0, s.put_rows(rows, i, v, n, ts).buf),
    decreases rows.len() - i,
{
    if 0 <= i < rows.len() {
        let k = state::plus(s.line, i);
        let chunk = strs::repeated(rows[i], ops::at_least_one(n));
        let t = s.buf.text;
        let l = s.line_text(k);
        let o = lines::line_off(t, k);
        let w = cols::column(l, text::blen(l), ts);
        let at = o + text::off(l, cols::index_at_col(l, v, ts));
        let end = o + text::blen(l);
        lemma_edit_within(
            b0,
            s,
            text::blen(t),
            text::blen(t),
            ops::missing_lf(t) + ops::spaces(v) + chunk,
        );
        lemma_edit_within(b0, s, at, at, chunk);
        lemma_edit_within(b0, s, end, end, ops::spaces(v - w) + chunk);
        lemma_put_rows(b0, s.put_row(k, chunk, v, ts), rows, i + 1, v, n, ts);
    }
}

/// `p` and `P` are one step of the history, also for a block of many rows.
pub proof fn law_put_is_one_step(s: EdV, after: bool, count: int)
    requires
        s.buf.wf(),
        s.buf.calm(),
    ensures
        at_most_one_step(s.buf, s.put(after, count).buf),
{
    reveal(EdV::put);
    lemma_same(s.buf);
    let name = match s.pending.register {
        Some(c) => c,
        None => '"',
    };
    if let Some(y) = s.regs.get(name) {
        let t = strs::repeated(y.text, ops::at_least_one(count));
        let n = text::blen(s.buf.text);
        let at = if after && s.col < s.line_len() {
            s.after_char()
        } else {
            s.cursor()
        };
        let k = if after {
            state::plus(s.line, 1)
        } else {
            s.line
        };
        let o = lines::line_off(s.buf.text, k);
        lemma_one_edit(s, at, at, t);
        lemma_one_edit(s, n, n, ops::missing_lf(s.buf.text) + t);
        lemma_one_edit(s, o, o, t);
        let rows = strs::split_from(y.text, '\n', 0);
        let v = s.put_col(after);
        let u = s.open_undo();
        lemma_begin(s.buf);
        lemma_put_rows(s.buf, u, rows, 0, v, count, s.tabstop());
        lemma_close(s.buf, u.put_rows(rows, 0, v, count, s.tabstop()).buf);
    }
}

proof fn lemma_block_fill(b0: BufV, s: EdV, k: int, l1: int, v1: int, v2: int, r: Seq<char>)
    requires
        within(b0, s.buf),
    ensures
        within(b0, s.block_fill_all(k, l1, v1, v2, r).buf),
    decreases k - l1 + 1,
{
    if k >= l1 {
        let l = s.line_text(k);
        let (i, j) = s.block_span(k, v1, v2);
        let o = lines::line_off(s.buf.text, k);
        lemma_edit_within(
            b0,
            s,
            o + text::off(l, i),
            o + text::off(l, j),
            strs::repeated(r, j - i),
        );
        lemma_block_fill(b0, s.block_fill(k, v1, v2, r), k - 1, l1, v1, v2, r);
    }
}

/// To delete a block is one step of the history.
pub proof fn law_block_cut_is_one_step(s: EdV, verb: Seq<char>)
    requires
        s.buf.wf(),
        s.buf.calm(),
    ensures
        at_most_one_step(s.buf, s.cut_block(verb).buf),
{
    let u = s.open_undo();
    lemma_begin(s.buf);
    let (l1, l2) = (s.top_line(), s.bottom_line());
    lemma_block_fill(s.buf, u, l2, l1, s.left_col(), s.right_col(), Seq::empty());
    lemma_close(
        s.buf,
        u.block_fill_all(l2, l1, s.left_col(), s.right_col(), Seq::empty()).buf,
    );
}

/// Lines that change places do so in one step of the history.
pub proof fn law_swap_is_one_step(s: EdV, a1: int, a2: int, b1: int, b2: int)
    requires
        s.buf.wf(),
        s.buf.calm(),
    ensures
        at_most_one_step(s.buf, s.swap(a1, a2, b1, b2).buf),
{
    lemma_same(s.buf);
    let a = s.lines_start(a1);
    let b = s.lines_end(b2);
    let span = s.taken(a, b);
    let r = strs::joined(s.lines_between(b1, b2), "\n"@) + "\n"@ + strs::joined(
        s.lines_between(a1, a2),
        "\n"@,
    ) + if span.len() > 0 && span.last() == '\n' {
        "\n"@
    } else {
        ""@
    };
    lemma_one_edit(s, a, b, r);
}

/// A file read into the text is one step of the history.
pub proof fn law_read_is_one_step(s: EdV, name: Seq<char>, content: Seq<char>)
    requires
        s.buf.wf(),
        s.buf.calm(),
    ensures
        at_most_one_step(s.buf, s.read_below(name, content).buf),
{
    reveal(EdV::read_below);
    lemma_one_edit(s, s.below(), s.below(), s.lines_to_read(content));
}

/// An answer put into the text is one step of the history.
pub proof fn law_answer_is_one_step(
    s: EdV,
    req: (int, int, Seq<char>, bool),
    r: Result<Seq<char>, Seq<char>>,
)
    requires
        s.buf.wf(),
        s.buf.calm(),
    ensures
        at_most_one_step(s.buf, s.answered(req, r).buf),
{
    reveal(EdV::answered);
    lemma_same(s.buf);
    if let Ok(a) = r {
        let bare = strs::without_back(a, '\n');
        let lo = if req.3 {
            req.0
        } else {
            s.cursor()
        };
        let hi = if req.3 {
            req.1
        } else {
            s.cursor()
        };
        lemma_one_edit(s, lo, hi, bare);
        lemma_one_edit(s, lo, hi, bare + "\n"@);
    }
}

/// A colour or a font is put on, and colours are taken off, in one step of
/// the history.
pub proof fn law_spans_are_one_step(s: EdV, lo: int, hi: int, style: Seq<char>, msg: Seq<char>)
    requires
        s.buf.wf(),
        s.buf.calm(),
    ensures
        at_most_one_step(s.buf, s.in_span(lo, hi, style, msg).buf),
        at_most_one_step(s.buf, s.without_colors().buf),
{
    reveal(EdV::in_span);
    reveal(EdV::without_colors);
    let t = s.buf.text;
    lemma_same(s.buf);
    lemma_one_edit(s, lo, hi, markup::span_of(style, markup::covered(t, lo, hi)));
    lemma_one_edit(
        s,
        0,
        text::blen(t),
        pattern::regex_replaced_all(markup::color_pattern(), t, "$1"@),
    );
}

/// How the text is shown does not touch it: reading mode, another size of the
/// terminal and scrolling leave the buffer and the cursor alone.
pub proof fn law_showing_keeps_the_text(s: EdV, cols: u16, rows: u16, ws: Seq<Vec<usize>>)
    ensures
        s.toggle_reading().buf == s.buf,
        s.toggle_reading().cursor() == s.cursor(),
        s.resized(cols, rows).buf == s.buf,
        s.resized(cols, rows).cursor() == s.cursor(),
        s.scrolled(ws).buf == s.buf,
        s.scrolled(ws).cursor() == s.cursor(),
{
    reveal(EdV::toggle_reading);
}

/// Reading mode switched on and off again leaves the pane as it was.
pub proof fn law_reading_twice(s: EdV)
    requires
        s.relayout() == s,
    ensures
        ({
            let t = s.toggle_reading().toggle_reading();
            &&& t.options == s.options
            &&& t.pane_x == s.pane_x
            &&& t.pane_w == s.pane_w
            &&& t.pane_h == s.pane_h
        }),
{
    reveal(EdV::toggle_reading);
}

/// To yank a selection changes no text.
pub proof fn law_yank_keeps_the_text(s: EdV)
    ensures
        s.visual_op('y').buf.text == s.buf.text,
        s.visual_op('y').buf.nodes == s.buf.nodes,
{
    reveal(EdV::visual_op);
    let o = EdV { pending: Pending { operator: Some('y'), ..s.pending }, ..s };
    match s.mode {
        Mode::Visual => {
            reveal(EdV::op_charwise);
        },
        Mode::VisualLine => {
            reveal(EdV::op_linewise);
        },
        Mode::VisualBlock => {
            reveal(EdV::op_block);
        },
        _ => {},
    }
}

/// In Normal mode the cursor stands on a character of its line, or at the
/// head of an empty one, wherever it is sent.
pub proof fn law_normal_cursor_on_line(s: EdV, b: int)
    requires
        0 <= b,
        s.mode is Normal,
    ensures
        ({
            let t = s.goto(b);
            &&& 0 <= t.line < t.line_count()
            &&& 0 <= t.col
            &&& t.col < t.line_len() || (t.col == 0 && t.line_len() == 0)
            &&& t.want == t.col
            &&& t.buf == s.buf
        }),
{
    cursor::lemma_goto(s, b);
    let t = s.buf.text;
    let p = state::min(b, text::blen(t));
    text::lemma_off_mono(t, 0, t.len() as int);
    text::lemma_at(t, p);
    let i = text::at(t, p);
    lines::lemma_line_of(t, i);
    let k = lines::line_at(t, p);
    lines::lemma_line_start(t, k);
    text::lemma_off_mono(t, lines::line_start(t, k), i);
    let l = s.line_text(k);
    text::lemma_off_mono(l, 0, l.len() as int);
    let q = state::min(p - lines::line_off(t, k), s.col_cap(k));
    text::lemma_at(l, q);
    text::lemma_off_mono(l, 0, text::at(l, q));
}

/// A file that changes outside the editor never takes unsaved changes away.
pub proof fn law_outside_change_keeps_edits(s: EdV, b: Option<BufV>)
    requires
        s.buf.dirty,
    ensures
        s.overtaken(b).buf == s.buf,
        s.overtaken(b).cursor() == s.cursor(),
{
}

/// The text of a file that is kept encrypted is not written elsewhere.
pub proof fn law_cleartext_stays(s: EdV, path: Seq<char>)
    requires
        s.encrypted,
    ensures
        s.write_to(path).1 == ActionV::Nothing,
        s.write_to(path).0.buf == s.buf,
{
}

} // verus!
