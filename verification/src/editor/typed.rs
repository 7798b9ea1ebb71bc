//! Laws of what typing leaves for the last change to be.

use vstd::prelude::*;
use crate::chars;
use crate::editor::state;
use crate::editor::state::{EdV, LastChangeV, Pending};
use crate::editor::typing;
use crate::mode;
use crate::strs;

verus! {

/// Normal mode with no key waiting for another.
pub open spec fn at_rest(s: EdV) -> bool {
    &&& s.mode is Normal
    &&& s.pending == state::no_pending()
    &&& s.prefixes.bracket is None
    &&& s.prefixes.leader_sub is None
    &&& !s.prefixes.insert_register
    &&& !s.prefixes.z
    &&& !s.prefixes.leader
    &&& !s.prefixes.record
    &&& !s.prefixes.play
    &&& !s.prefixes.mark_set
    &&& !s.prefixes.mark_jump
    &&& s.block is None
}

/// Keys that start to insert.
pub open spec fn inserts(k: char) -> bool {
    k == 'i' || k == 'a' || k == 'I' || k == 'A' || k == 'o' || k == 'O'
}

/// A character that typing puts in as it is, with no abbreviation to expand.
pub open spec fn plain(c: char) -> bool {
    typing::abbrev_char(c) && !chars::is_ctrl(c) && c != ' ' && c != '\n' && c != '\r' && c
        != '\t'
}

/// The characters of `t` typed one by one in Insert mode.
pub open spec fn typed_all(s: EdV, t: Seq<char>) -> EdV
    decreases t.len(),
{
    if t.len() == 0 {
        s
    } else {
        typed_all(s, t.drop_last()).insert_key(seq![t.last()]).0
    }
}

/// Insert mode with nothing typed yet.
pub open spec fn fresh(s: EdV) -> bool {
    &&& s.mode is Insert
    &&& s.capturing
    &&& s.captured.len() == 0
    &&& !s.prefixes.insert_register
    &&& s.block is None
}

proof fn lemma_before_command(s: EdV, k: char)
    requires
        at_rest(s),
        inserts(k),
    ensures
        s.normal_key(seq![k]) == (EdV { status: None, ..s }).normal_command(seq![k]),
{
    let key = seq![k];
    reveal(EdV::normal_key);
    reveal(EdV::register_keys);
    reveal(EdV::macro_keys);
    reveal(EdV::char_keys);
    reveal(EdV::mark_keys);
    reveal(EdV::z_keys);
    reveal(EdV::leader_keys);
    reveal(EdV::fold_keys);
    reveal_strlit("C-Y");
    reveal_strlit("M");
    reveal_strlit("@");
    reveal_strlit("m");
    reveal_strlit("'");
    reveal_strlit("`");
    reveal_strlit("z");
    reveal_strlit("\\");
    reveal_strlit(" ");
    reveal_strlit("C-SPACE");
    reveal_strlit("LEFT");
    reveal_strlit("RIGHT");
    assert("C-Y"@.len() == 3);
    assert("M"@[0] == 'M');
    assert("@"@[0] == '@');
    assert("m"@[0] == 'm');
    assert("'"@[0] == '\'');
    assert("`"@[0] == '`');
    assert("z"@[0] == 'z');
    assert("\\"@[0] == '\\');
    assert(" "@[0] == ' ');
    assert("C-SPACE"@.len() == 7);
    assert("LEFT"@.len() == 4);
    assert("RIGHT"@.len() == 5);
    assert(key.len() == 1 && key[0] == k);
    assert((EdV { status: None, ..s }).unquoted() == (EdV { status: None, ..s }));
}

proof fn lemma_no_motion(s: EdV, k: char, n: int)
    requires
        inserts(k),
    ensures
        s.motion(seq![k], n) is None,
{
    let key = seq![k];
    reveal(EdV::motion);
    reveal_strlit("h");
    reveal_strlit("l");
    reveal_strlit("LEFT");
    reveal_strlit("RIGHT");
    reveal_strlit("j");
    reveal_strlit("DOWN");
    reveal_strlit("k");
    reveal_strlit("UP");
    reveal_strlit("0");
    reveal_strlit("HOME");
    reveal_strlit("C-HOME");
    reveal_strlit("C-END");
    reveal_strlit("^");
    reveal_strlit("-");
    reveal_strlit("$");
    reveal_strlit("END");
    reveal_strlit("w");
    reveal_strlit("b");
    reveal_strlit("e");
    reveal_strlit("E");
    reveal_strlit("W");
    reveal_strlit("B");
    reveal_strlit("G");
    reveal_strlit("n");
    reveal_strlit("N");
    assert("h"@[0] == 'h');
    assert("l"@[0] == 'l');
    assert("LEFT"@.len() == 4);
    assert("RIGHT"@.len() == 5);
    assert("j"@[0] == 'j');
    assert("DOWN"@.len() == 4);
    assert("k"@[0] == 'k');
    assert("UP"@.len() == 2);
    assert("0"@[0] == '0');
    assert("HOME"@.len() == 4);
    assert("C-HOME"@.len() == 6);
    assert("C-END"@.len() == 5);
    assert("^"@[0] == '^');
    assert("-"@[0] == '-');
    assert("$"@[0] == '$');
    assert("END"@.len() == 3);
    assert("w"@[0] == 'w');
    assert("b"@[0] == 'b');
    assert("e"@[0] == 'e');
    assert("E"@[0] == 'E');
    assert("W"@[0] == 'W');
    assert("B"@[0] == 'B');
    assert("G"@[0] == 'G');
    assert("n"@[0] == 'n');
    assert("N"@[0] == 'N');
    assert(key.len() == 1 && key[0] == k);
}

proof fn lemma_no_page(s: EdV, k: char, n: int)
    requires
        inserts(k),
    ensures
        s.page_action(seq![k], n) is None,
{
    let key = seq![k];
    reveal(EdV::page_action);
    reveal_strlit("K");
    reveal_strlit("PgDOWN");
    reveal_strlit("C-D");
    reveal_strlit("PgUP");
    reveal_strlit("C-U");
    reveal_strlit("C-UP");
    reveal_strlit("C-DOWN");
    reveal_strlit("C-A");
    reveal_strlit("C-X");
    assert("K"@[0] == 'K');
    assert("PgDOWN"@.len() == 6);
    assert("C-D"@.len() == 3);
    assert("PgUP"@.len() == 4);
    assert("C-U"@.len() == 3);
    assert("C-UP"@.len() == 4);
    assert("C-DOWN"@.len() == 6);
    assert("C-A"@.len() == 3);
    assert("C-X"@.len() == 3);
    assert(key.len() == 1 && key[0] == k);
}

proof fn lemma_command(s: EdV, k: char)
    requires
        at_rest(s),
        inserts(k),
    ensures
        s.normal_command(seq![k]).0 == s.normal_action(seq![k], 1).0.clear_pending(),
{
    let key = seq![k];
    reveal(EdV::normal_command);
    reveal(EdV::bracket_keys);
    reveal(EdV::object_keys);
    reveal(EdV::escape_keys);
    reveal(EdV::count_keys);
    reveal(EdV::g_keys);
    reveal(EdV::op_keys);
    reveal(EdV::prefix_keys);
    reveal_strlit("s");
    reveal_strlit("]");
    reveal_strlit("[");
    reveal_strlit("ESC");
    reveal_strlit("g");
    reveal_strlit("q");
    reveal_strlit("DOWN");
    reveal_strlit("j");
    reveal_strlit("UP");
    reveal_strlit("k");
    reveal_strlit("i");
    reveal_strlit("a");
    reveal_strlit("d");
    reveal_strlit("c");
    reveal_strlit("y");
    reveal_strlit(">");
    reveal_strlit("<");
    reveal_strlit("v");
    reveal_strlit("V");
    reveal_strlit("C-V");
    reveal_strlit(".");
    reveal_strlit("\"");
    reveal_strlit("f");
    reveal_strlit("F");
    reveal_strlit("t");
    reveal_strlit("T");
    reveal_strlit("r");
    assert("s"@[0] == 's');
    assert("]"@[0] == ']');
    assert("["@[0] == '[');
    assert("ESC"@.len() == 3);
    assert("g"@[0] == 'g');
    assert("q"@[0] == 'q');
    assert("DOWN"@.len() == 4);
    assert("j"@[0] == 'j');
    assert("UP"@.len() == 2);
    assert("k"@[0] == 'k');
    assert("i"@[0] == 'i');
    assert("a"@[0] == 'a');
    assert("d"@[0] == 'd');
    assert("c"@[0] == 'c');
    assert("y"@[0] == 'y');
    assert(">"@[0] == '>');
    assert("<"@[0] == '<');
    assert("v"@[0] == 'v');
    assert("V"@[0] == 'V');
    assert("C-V"@.len() == 3);
    assert("."@[0] == '.');
    assert("\""@[0] == '"');
    assert("f"@[0] == 'f');
    assert("F"@[0] == 'F');
    assert("t"@[0] == 't');
    assert("T"@[0] == 'T');
    assert("r"@[0] == 'r');
    assert(key.len() == 1 && key[0] == k);
    assert(strs::head(key) == Some(k));
    assert(state::count_of(s.pending) == 1);
    lemma_no_motion(s, k, 1);
}

/// A key that starts to insert leaves the last change alone, and what is typed
/// belongs to no operator.
proof fn lemma_starts(s: EdV, k: char)
    requires
        at_rest(s),
        inserts(k),
    ensures
        fresh(s.normal_key(seq![k]).0),
        !s.normal_key(seq![k]).0.prefixes.changing,
{
    let key = seq![k];
    let q = EdV { status: None, ..s };
    lemma_before_command(s, k);
    lemma_command(q, k);
    lemma_no_page(q, k, 1);
    reveal(EdV::normal_action);
    reveal(EdV::enter_action);
    reveal(EdV::append);
    reveal(EdV::insert_first);
    reveal(EdV::append_last);
    reveal(EdV::open_below);
    reveal(EdV::open_above);
    reveal_strlit("i");
    reveal_strlit("a");
    reveal_strlit("I");
    reveal_strlit("A");
    reveal_strlit("o");
    reveal_strlit("O");
    reveal_strlit("R");
    reveal_strlit("s");
    reveal_strlit("S");
    reveal_strlit("C");
    assert("i"@[0] == 'i');
    assert("a"@[0] == 'a');
    assert("I"@[0] == 'I');
    assert("A"@[0] == 'A');
    assert("o"@[0] == 'o');
    assert("O"@[0] == 'O');
    assert("R"@[0] == 'R');
    assert("s"@[0] == 's');
    assert("S"@[0] == 'S');
    assert("C"@[0] == 'C');
    assert(key.len() == 1 && key[0] == k);
    assert(k == 'i' ==> key =~= "i"@);
    assert(k == 'a' ==> key =~= "a"@);
    assert(k == 'I' ==> key =~= "I"@);
    assert(k == 'A' ==> key =~= "A"@);
    assert(k == 'o' ==> key =~= "o"@);
    assert(k == 'O' ==> key =~= "O"@);
}

/// A plain character is put in and captured.
proof fn lemma_one(s: EdV, c: char)
    requires
        plain(c),
        !s.prefixes.insert_register,
        s.capturing,
    ensures
        ({
            let r = s.insert_key(seq![c]).0;
            &&& r.captured == s.captured.push(c)
            &&& r.last == s.last
            &&& r.prefixes == s.prefixes
            &&& r.capturing
            &&& r.mode == s.mode
            &&& r.block == s.block
        }),
{
    let key = seq![c];
    reveal(EdV::insert_key);
    reveal(EdV::typing_move);
    reveal(EdV::insert_move);
    reveal(EdV::insert_edit);
    reveal(EdV::insert_char);
    reveal(EdV::typed);
    reveal_strlit("INS");
    reveal_strlit("C-R");
    reveal_strlit("ESC");
    reveal_strlit("C-[");
    reveal_strlit("C-C");
    reveal_strlit("LEFT");
    reveal_strlit("RIGHT");
    reveal_strlit("UP");
    reveal_strlit("DOWN");
    reveal_strlit("HOME");
    reveal_strlit("END");
    reveal_strlit("C-HOME");
    reveal_strlit("C-END");
    reveal_strlit("PgUP");
    reveal_strlit("PgDOWN");
    reveal_strlit("C-UP");
    reveal_strlit("C-DOWN");
    reveal_strlit("DEL");
    reveal_strlit("C-Y");
    reveal_strlit("C-E");
    reveal_strlit("C-K");
    reveal_strlit("C-T");
    reveal_strlit("C-D");
    reveal_strlit("TAB");
    reveal_strlit("\t");
    reveal_strlit("BACK");
    reveal_strlit("BACKSPACE");
    reveal_strlit("C-H");
    reveal_strlit("ENTER");
    reveal_strlit("\n");
    reveal_strlit("\r");
    reveal_strlit("C-M");
    reveal_strlit("C-J");
    assert("INS"@.len() == 3);
    assert("C-R"@.len() == 3);
    assert("ESC"@.len() == 3);
    assert("C-["@.len() == 3);
    assert("C-C"@.len() == 3);
    assert("LEFT"@.len() == 4);
    assert("RIGHT"@.len() == 5);
    assert("UP"@.len() == 2);
    assert("DOWN"@.len() == 4);
    assert("HOME"@.len() == 4);
    assert("END"@.len() == 3);
    assert("C-HOME"@.len() == 6);
    assert("C-END"@.len() == 5);
    assert("PgUP"@.len() == 4);
    assert("PgDOWN"@.len() == 6);
    assert("C-UP"@.len() == 4);
    assert("C-DOWN"@.len() == 6);
    assert("DEL"@.len() == 3);
    assert("C-Y"@.len() == 3);
    assert("C-E"@.len() == 3);
    assert("C-K"@.len() == 3);
    assert("C-T"@.len() == 3);
    assert("C-D"@.len() == 3);
    assert("TAB"@.len() == 3);
    assert("\t"@[0] == '\t');
    assert("BACK"@.len() == 4);
    assert("BACKSPACE"@.len() == 9);
    assert("C-H"@.len() == 3);
    assert("ENTER"@.len() == 5);
    assert("\n"@[0] == '\n');
    assert("\r"@[0] == '\r');
    assert("C-M"@.len() == 3);
    assert("C-J"@.len() == 3);
    assert(key.len() == 1 && key[0] == c);
    assert(s.captured + key =~= s.captured.push(c));
}

proof fn lemma_all(s: EdV, t: Seq<char>)
    requires
        fresh(s),
        forall|i: int| 0 <= i < t.len() ==> plain(#[trigger] t[i]),
    ensures
        ({
            let r = typed_all(s, t);
            &&& r.captured == t
            &&& r.last == s.last
            &&& r.prefixes == s.prefixes
            &&& r.capturing
            &&& r.mode is Insert
            &&& r.block is None
        }),
    decreases t.len(),
{
    if t.len() == 0 {
        assert(s.captured =~= t);
    } else {
        assert(plain(t[t.len() - 1]));
        lemma_all(s, t.drop_last());
        lemma_one(typed_all(s, t.drop_last()), t.last());
        assert(t.drop_last().push(t.last()) =~= t);
    }
}

/// Escape ends the typing and keeps what was typed as part of the last change.
proof fn lemma_escape(s: EdV)
    requires
        !s.prefixes.insert_register,
        s.capturing,
        s.block is None,
    ensures
        s.insert_key("ESC"@).0.mode is Normal,
        s.insert_key("ESC"@).0.last == s.captured_change().last,
{
    reveal(EdV::insert_key);
    reveal(EdV::leave_insert);
    reveal_strlit("ESC");
    reveal_strlit("INS");
    reveal_strlit("C-R");
    assert("ESC"@[0] == 'E' && "INS"@[0] == 'I' && "C-R"@[0] == 'C');
}

/// Whatever the last change was, text typed after a key that starts to insert
/// is the last change once Escape ends it. Made again, it puts the same text
/// in at the cursor.
pub proof fn law_inserting_is_the_last_change(s: EdV, k: char, t: Seq<char>, q: EdV)
    requires
        at_rest(s),
        inserts(k),
        t.len() > 0,
        forall|i: int| 0 <= i < t.len() ==> plain(#[trigger] t[i]),
        q.last == typed_all(s.normal_key(seq![k]).0, t).insert_key("ESC"@).0.last,
    ensures
        q.last == Some(LastChangeV::Insert { text: t, append: false }),
        q.repeat_change().buf == q.edit(q.cursor(), q.cursor(), t).buf,
{
    let e = s.normal_key(seq![k]).0;
    lemma_starts(s, k);
    lemma_all(e, t);
    lemma_escape(typed_all(e, t));
    reveal(EdV::repeat_change);
    reveal(EdV::put_typed);
}

/// Text typed after a change operator and a motion becomes part of that change
/// once Escape ends it.
pub proof fn law_typing_joins_the_change(s: EdV, key: Seq<char>, b: int, t: Seq<char>)
    requires
        s.pending.operator == Some('c'),
        fresh(s.move_to(key, b)),
        forall|i: int| 0 <= i < t.len() ==> plain(#[trigger] t[i]),
    ensures
        typed_all(s.move_to(key, b), t).insert_key("ESC"@).0.last == Some(
            LastChangeV::Op {
                op: 'c',
                motion: s.kept_motion('c', key, b),
                count: state::count_of(s.pending),
                register: s.pending.register,
                insert_text: t,
            },
        ),
{
    let e = s.move_to(key, b);
    reveal(EdV::move_to);
    lemma_all(e, t);
    lemma_escape(typed_all(e, t));
}

/// An operator that changes text starts to insert what belongs to nothing yet.
proof fn lemma_changed(s: EdV, a: int, b: int)
    requires
        s.mode !is Insert,
        s.pending.operator == Some('c'),
    ensures
        s.op_charwise('c', a, b).mode is Insert ==> !s.op_charwise('c', a, b).prefixes.changing,
        s.op_linewise(a, b).mode is Insert ==> !s.op_linewise(a, b).prefixes.changing,
{
    reveal(EdV::op_charwise);
    reveal(EdV::op_linewise);
    reveal(EdV::lines_changed);
}

proof fn lemma_followed(s: EdV, l1: int, l2: int, v: int)
    ensures
        !s.follow_block(l1, l2, v).prefixes.changing,
{
}

proof fn lemma_block_changed(s: EdV)
    ensures
        !s.op_block('c').prefixes.changing,
{
    reveal(EdV::op_block);
    lemma_followed(
        s.cut_block("changed"@),
        s.top_line(),
        s.bottom_line(),
        s.left_col(),
    );
}

/// Text typed in place of a selection is the last change by itself: no earlier
/// operator takes it.
pub proof fn law_retyping_a_selection(s: EdV, t: Seq<char>)
    requires
        mode::visual(s.mode),
        fresh(s.visual_op('c')),
        t.len() > 0,
        forall|i: int| 0 <= i < t.len() ==> plain(#[trigger] t[i]),
    ensures
        typed_all(s.visual_op('c'), t).insert_key("ESC"@).0.last == Some(
            LastChangeV::Insert { text: t, append: false },
        ),
{
    let e = s.visual_op('c');
    assert(!e.prefixes.changing) by {
        reveal(EdV::visual_op);
        let p = EdV { pending: Pending { operator: Some('c'), ..s.pending }, ..s };
        lemma_changed(p, p.visual_range().0, p.visual_range().1);
        lemma_changed(
            p.place(p.top_line(), p.col),
            p.top_line(),
            p.bottom_line() - p.top_line(),
        );
        lemma_block_changed(p);
    }
    lemma_all(e, t);
    lemma_escape(typed_all(e, t));
}

} // verus!
