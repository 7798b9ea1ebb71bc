//! Laws of the command that makes the last change again.

use vstd::prelude::*;
use crate::cols;
use crate::editor::blocks;
use crate::editor::repeat;
use crate::editor::state;
use crate::editor::state::{ChangeMotionV, EdV, LastChangeV, Pending};
use crate::lines;
use crate::marks;
use crate::search::Direction;
use crate::text;

verus! {

/// The state in which the keys of an operator stand typed.
pub open spec fn with_operator(s: EdV, op: char, count: int, register: Option<char>) -> EdV {
    EdV {
        pending: Pending {
            operator: Some(op),
            register,
            count1: Some(count as usize),
            ..s.pending
        },
        ..s
    }
}

/// After a doubled operator, which works on whole lines, the last change made
/// again does at any place what the same keys do there.
pub proof fn law_lines_again(s: EdV, r: EdV, op: char, register: Option<char>)
    requires
        op != 'c',
        r.last == s.op_doubled(op, register).last,
    ensures
        ({
            let n = match s.pending.count1 {
                Some(n) => n as int,
                None => 1,
            };
            r.repeat_change().buf == with_operator(r, op, n, register).op_doubled(op, register).buf
        }),
{
    reveal(EdV::op_doubled);
    reveal(EdV::repeat_change);
    reveal(EdV::repeat_op);
    reveal(EdV::redo_op);
}

/// What an operator makes of the text rests on the operator alone of all that
/// is pending.
proof fn lemma_pending(s: EdV, p: Pending, op: char, key: Seq<char>, b: int)
    requires
        p.operator == s.pending.operator,
    ensures
        s.with_pending(p).op_move(op, key, b).buf == s.op_move(op, key, b).buf,
{
    reveal(EdV::op_move);
    lemma_reach_op(s, p, op, b);
    let l1 = s.line_near(s.cursor());
    let l2 = s.line_near(b);
    lemma_lines_op(s, p, state::min(l1, l2), state::max(l1, l2) - state::min(l1, l2));
}

/// `gg`, `*` and `#` are not among the plain motions, and Ctrl-End leads where
/// `G` does without a count.
proof fn lemma_long_keys(s: EdV, n: int)
    ensures
        s.motion("gg"@, n) is None,
        s.motion("*"@, n) is None,
        s.motion("#"@, n) is None,
        s.pending.count1 is None ==> s.motion("G"@, n) == s.motion("C-END"@, n),
        "C-END"@ != "gg"@,
        "C-END"@ != "G"@,
        "C-END"@ != "*"@,
        "C-END"@ != "#"@,
{
    reveal(EdV::motion);
    reveal_strlit("gg");
    reveal_strlit("h");
    reveal_strlit("l");
    reveal_strlit("LEFT");
    reveal_strlit("RIGHT");
    reveal_strlit("j");
    reveal_strlit("DOWN");
    reveal_strlit("k");
    reveal_strlit("UP");
    reveal_strlit("0");
    reveal_strlit("HOME");
    reveal_strlit("C-HOME");
    reveal_strlit("C-END");
    reveal_strlit("^");
    reveal_strlit("-");
    reveal_strlit("$");
    reveal_strlit("END");
    reveal_strlit("w");
    reveal_strlit("b");
    reveal_strlit("e");
    reveal_strlit("E");
    reveal_strlit("W");
    reveal_strlit("B");
    reveal_strlit("G");
    reveal_strlit("n");
    reveal_strlit("N");
    reveal_strlit("*");
    reveal_strlit("#");
    assert("h"@[0] == 'h' && "l"@[0] == 'l' && "j"@[0] == 'j' && "k"@[0] == 'k' && "0"@[0] == '0');
    assert("^"@[0] == '^' && "-"@[0] == '-' && "$"@[0] == '$' && "w"@[0] == 'w' && "b"@[0] == 'b');
    assert("e"@[0] == 'e' && "E"@[0] == 'E' && "W"@[0] == 'W' && "B"@[0] == 'B' && "G"@[0] == 'G');
    assert("n"@[0] == 'n' && "N"@[0] == 'N');
    assert("C-END"@[2] == 'E' && "C-HOME"@[2] == 'H' && "RIGHT"@[2] == 'G');
    assert("gg"@[0] == 'g');
    assert("UP"@.len() == 2);
    assert("*"@[0] == '*' && "#"@[0] == '#');
    let end = Some(lines::line_off(s.buf.text, s.last_line()));
    assert(s.motion("C-END"@, n) == end);
    assert(s.pending.count1 is None ==> s.motion("G"@, n) == end);
}

proof fn lemma_after_pending(s: EdV, p: Pending, k: int)
    ensures
        s.with_pending(p).visible_after(k) == s.visible_after(k),
    decreases s.line_count() - k,
{
    if k + 1 < s.line_count() {
        lemma_after_pending(s, p, k + 1);
    }
}

proof fn lemma_before_pending(s: EdV, p: Pending, k: int)
    ensures
        s.with_pending(p).visible_before(k) == s.visible_before(k),
    decreases k,
{
    if k > 0 {
        lemma_before_pending(s, p, k - 1);
    }
}

proof fn lemma_lines_pending(s: EdV, p: Pending, k: int, n: int)
    ensures
        s.with_pending(p).down_from(k, n) == s.down_from(k, n),
        s.with_pending(p).up_from(k, n) == s.up_from(k, n),
    decreases n,
{
    if n > 0 {
        lemma_after_pending(s, p, k);
        lemma_before_pending(s, p, k);
        if let Some(j) = s.visible_after(k) {
            lemma_lines_pending(s, p, j, n - 1);
        }
        if let Some(j) = s.visible_before(k) {
            lemma_lines_pending(s, p, j, n - 1);
        }
    }
}

proof fn lemma_match_pending(s: EdV, p: Pending, b: int, reverse: bool, n: int)
    ensures
        s.with_pending(p).nth_match(b, reverse, n) == s.nth_match(b, reverse, n),
    decreases n,
{
    if n > 1 {
        if let Some(q) = s.match_after(b, reverse) {
            lemma_match_pending(s, p, q, reverse, n - 1);
        }
    }
}

/// A motion looks at no more of what is pending than whether there is an
/// operator, and for `G` a count.
proof fn lemma_motion_pending(s: EdV, p: Pending, key: Seq<char>, n: int)
    requires
        p.operator == s.pending.operator,
        key == "G"@ ==> (p.count1 is Some <==> s.pending.count1 is Some),
    ensures
        s.with_pending(p).motion(key, n) == s.motion(key, n),
{
    reveal(EdV::motion);
    lemma_lines_pending(s, p, s.line, n);
    lemma_match_pending(s, p, s.cursor(), false, n);
    lemma_match_pending(s, p, s.cursor(), true, n);
}

/// After an operator and a motion, the last change made again does at any
/// place what the same keys do there.
pub proof fn law_motion_again(s: EdV, r: EdV, op: char, key: Seq<char>, b: int, to: int)
    requires
        s.pending.operator == Some(op),
        op != 'c',
        !repeat::whole_lines(op),
        r.last == s.move_to(key, b).last,
        r.with_pending(s.pending).motion(key, state::count_of(s.pending)) == Some(to),
    ensures
        r.repeat_change().buf == r.with_pending(s.pending).move_to(key, to).buf,
{
    let n = state::count_of(s.pending);
    let k = if key == "G"@ && s.pending.count1 is None {
        "C-END"@
    } else {
        key
    };
    let t = with_operator(r, op, n, s.pending.register);
    let u = r.with_pending(s.pending);
    reveal(EdV::move_to);
    reveal(EdV::repeat_change);
    reveal(EdV::repeat_op);
    reveal(EdV::redo_op);
    lemma_long_keys(u, n);
    if k == key {
        lemma_motion_pending(u, t.pending, key, n);
    } else {
        lemma_motion_pending(u, t.pending, "C-END"@, n);
    }
    assert(t.op_move(op, k, to) == t.op_move(op, key, to)) by {
        reveal(EdV::op_move);
    }
    lemma_pending(t, s.pending, op, key, to);
}

/// What an operator makes of lines rests on the operator alone of all that is
/// pending.
proof fn lemma_lines_op(s: EdV, p: Pending, from: int, extra: int)
    requires
        p.operator == s.pending.operator,
    ensures
        s.with_pending(p).op_linewise(from, extra).buf == s.op_linewise(from, extra).buf,
{
    reveal(EdV::op_linewise);
    reveal(EdV::lines_cut);
    reveal(EdV::lines_changed);
    reveal(EdV::lines_redone);
}

proof fn lemma_reach_op(s: EdV, p: Pending, op: char, b: int)
    requires
        p.operator == s.pending.operator,
    ensures
        s.with_pending(p).op_to(op, b).buf == s.op_to(op, b).buf,
{
    reveal(EdV::op_to);
    reveal(EdV::op_charwise);
    let l1 = s.line_near(s.cursor());
    let l2 = s.line_near(b);
    lemma_lines_op(s, p, state::min(l1, l2), state::max(l1, l2) - state::min(l1, l2));
}

/// After an operator up to a character that `f`, `F`, `t` or `T` found, the
/// last change made again does at any place what the same keys do there.
pub proof fn law_find_again(s: EdV, r: EdV, op: char, how: char, c: char)
    requires
        s.pending.operator == Some(op),
        op != 'c',
        s.find_bound(how, c, state::count_of(s.pending)) is Some,
        r.last == s.take_found(op, how, c).last,
    ensures
        r.repeat_change().buf == r.with_pending(s.pending).take_found(op, how, c).buf,
{
    let n = state::count_of(s.pending);
    let t = with_operator(r, op, n, s.pending.register);
    reveal(EdV::take_found);
    reveal(EdV::find_bound);
    reveal(EdV::repeat_change);
    reveal(EdV::repeat_op);
    reveal(EdV::redo_op);
    if let Some(b) = t.find_bound(how, c, n) {
        lemma_reach_op(t, s.pending, op, b);
    }
}

/// After an operator up to the word at the cursor elsewhere, the last change
/// made again does at any place what the same keys do there.
pub proof fn law_word_again(s: EdV, r: EdV, op: char, forward: bool, n: int)
    requires
        s.pending.operator == Some(op),
        op != 'c',
        ({
            let d = if forward {
                Direction::Forward
            } else {
                Direction::Backward
            };
            let key = if forward {
                "*"@
            } else {
                "#"@
            };
            s.here_match(d, n) is Some && r.last == s.word_key(key, d, n).last
        }),
    ensures
        ({
            let d = if forward {
                Direction::Forward
            } else {
                Direction::Backward
            };
            let key = if forward {
                "*"@
            } else {
                "#"@
            };
            r.repeat_change().buf == r.with_pending(s.pending).word_key(key, d, n).buf
        }),
{
    let d = if forward {
        Direction::Forward
    } else {
        Direction::Backward
    };
    let t = with_operator(r, op, n, s.pending.register);
    reveal(EdV::word_key);
    reveal(EdV::op_here);
    reveal(EdV::seek_here);
    reveal(EdV::repeat_change);
    reveal(EdV::repeat_op);
    reveal(EdV::redo_op);
    reveal_strlit("*");
    reveal_strlit("#");
    reveal_strlit("gg");
    assert("*"@[0] == '*' && "#"@[0] == '#' && "gg"@.len() == 2);
    lemma_match_pending(t.seek_here(d), s.pending, t.cursor(), false, n);
    if let Some(b) = t.here_match(d, n) {
        lemma_reach_op(t.seek_here(d), s.pending, op, b);
    }
}

/// After an operator up to the line that `gg` leads to, the last change made
/// again does at any place what the same keys do there.
pub proof fn law_top_again(s: EdV, r: EdV, op: char)
    requires
        s.pending.operator == Some(op),
        op != 'c',
        r.last == s.go_to_line().last,
    ensures
        r.repeat_change().buf == r.with_pending(s.pending).go_to_line().buf,
{
    let t = with_operator(r, op, state::or_one(s.pending.count1), s.pending.register);
    let u = r.with_pending(s.pending);
    reveal(EdV::go_to_line);
    reveal(EdV::op_top);
    reveal(EdV::repeat_change);
    reveal(EdV::repeat_op);
    reveal(EdV::redo_op);
    lines::lemma_line_start(r.buf.text, 0);
    assert(t.top_target() == u.top_target());
    let k = t.top_target();
    lemma_lines_op(
        t,
        s.pending,
        state::min(t.line, k),
        state::max(t.line, k) - state::min(t.line, k),
    );
}

/// After an operator up to a mark, the last change made again works up to the
/// mark from the new place.
pub proof fn law_mark_again(s: EdV, r: EdV, op: char, name: char, b: int, exact: bool, to: int)
    requires
        s.pending.operator == Some(op),
        op != 'c',
        r.last == s.take_mark(op, name, b, exact).last,
        marks::mark_at(r.marks, name) == Some(to),
    ensures
        r.repeat_change().buf == r.with_pending(s.pending).take_mark(op, name, to, exact).buf,
{
    let t = with_operator(r, op, state::count_of(s.pending), s.pending.register);
    reveal(EdV::take_mark);
    reveal(EdV::op_mark);
    reveal(EdV::op_charwise);
    reveal(EdV::repeat_change);
    reveal(EdV::repeat_op);
    reveal(EdV::redo_op);
    let k = t.line_near(to);
    lemma_lines_op(
        t,
        s.pending,
        state::min(t.line, k),
        state::max(t.line, k) - state::min(t.line, k),
    );
}

/// After a put, the last change made again puts the same register, as often,
/// at the new place.
pub proof fn law_put_again(s: EdV, r: EdV, after: bool, count: int)
    requires
        r.last == s.put_key(after, count).last,
    ensures
        ({
            let register = s.put(after, count).pending.register;
            let t = EdV { pending: Pending { register, ..r.pending }, ..r };
            r.repeat_change().buf == t.put(after, count).buf
        }),
{
    reveal(EdV::put_key);
    reveal(EdV::repeat_change);
    reveal(EdV::repeat_put);
}

/// After a number or a date was counted up or down, the last change made again
/// counts by as much at the new place.
pub proof fn law_count_again(s: EdV, r: EdV, delta: int)
    requires
        i64::MIN <= delta <= i64::MAX,
        blocks::abs(delta) <= usize::MAX,
        ({
            let l = s.line_text(s.line);
            let cur = state::min(s.col, text::blen(l));
            blocks::date_near(l, cur, delta) is Some || blocks::number_near(
                l,
                text::at(l, cur),
                delta,
            ) is Some
        }),
        r.last == s.change_number(delta).last,
    ensures
        r.repeat_change() == r.change_number(delta),
{
    reveal(EdV::change_number);
    reveal(EdV::repeat_change);
    reveal(EdV::repeat_action);
    reveal_strlit("C-A");
    reveal_strlit("C-X");
    assert("C-A"@[2] == 'A' && "C-X"@[2] == 'X');
    assert(cols::sat(blocks::abs(delta)) == blocks::abs(delta));
}

/// After text was typed, the last change made again types it at the new place.
pub proof fn law_typing_again(r: EdV, t: Seq<char>, append: bool)
    requires
        r.last == Some(LastChangeV::Insert { text: t, append }),
    ensures
        r.repeat_change().buf == r.edit(r.cursor(), r.cursor(), t).buf,
{
    reveal(EdV::repeat_change);
    reveal(EdV::put_typed);
}

/// After an operator on a text object, the last change made again works on the
/// object at the new place.
pub proof fn law_object_again(s: EdV, r: EdV, kind: char, target: char, a: int, b: int)
    requires
        s.pending.operator is Some,
        s.pending.operator != Some('c'),
        s.object(kind, target) is Some,
        r.last == s.take_object(kind, target).last,
        ({
            let op = s.pending.operator->0;
            let register = s.take_object(kind, target).last->0->Op_register;
            with_operator(r, op, 1, register).object(kind, target) == Some((a, b))
        }),
    ensures
        ({
            let op = s.pending.operator->0;
            let register = s.take_object(kind, target).last->0->Op_register;
            r.repeat_change().buf == with_operator(r, op, 1, register).op_object(op, a, b).buf
        }),
{
    reveal(EdV::take_object);
    reveal(EdV::repeat_change);
    reveal(EdV::repeat_op);
    reveal(EdV::redo_op);
}

/// After an operator that changes text up to a motion, the last change made
/// again changes it at the new place and types the same text there.
pub proof fn law_change_again(
    r: EdV,
    key: Seq<char>,
    count: int,
    register: Option<char>,
    t: Seq<char>,
    to: int,
)
    requires
        r.last == Some(
            LastChangeV::Op {
                op: 'c',
                motion: ChangeMotionV::Key(key),
                count,
                register,
                insert_text: t,
            },
        ),
        t.len() > 0,
        with_operator(r, 'c', count, register).motion(key, count) == Some(to),
    ensures
        ({
            let c = with_operator(r, 'c', count, register).op_move('c', key, to);
            &&& r.repeat_change().buf == c.put_typed(t).buf
            &&& r.repeat_change().mode is Normal
        }),
{
    reveal(EdV::repeat_change);
    reveal(EdV::repeat_op);
    reveal(EdV::redo_op);
    lemma_long_keys(with_operator(r, 'c', count, register), count);
}

/// After a character was replaced, the last change made again replaces as many
/// at the new place.
pub proof fn law_replace_again(r: EdV, c: char, count: int)
    requires
        r.last == Some(LastChangeV::Replace { c, count }),
    ensures
        r.repeat_change() == r.replace_times(c, count),
{
    reveal(EdV::repeat_change);
}

} // verus!
