//! What the keys of Normal mode do: laws of whole commands, from the keys that
//! are pressed to the text that comes of them.

use vstd::prelude::*;
use vstd::string::*;
use crate::chars;
use crate::editor::edits;
use crate::editor::laws;
use crate::editor::motions;
use crate::editor::motions::WordMotion;
use crate::editor::normal;
use crate::editor::repeat;
use crate::editor::selections;
use crate::editor::state;
use crate::editor::state::{EdV, Pending, Prefixes};
use crate::editor::substitute;
use crate::editor::typed;
use crate::editor::typing;
use crate::editor::visual;
use crate::editor::visual::CaseOp;
use crate::fold;
use crate::lines;
use crate::mode::Mode;
use crate::motion;
use crate::register::{YankKind, YankV};
use crate::strs;
use crate::text;
use crate::textobj;

verus! {

/// A key that is one character.
pub open spec fn key(k: char) -> Seq<char> {
    seq![k]
}

/// The state with an operator pending and nothing else.
pub open spec fn with_operator(s: EdV, op: char) -> EdV {
    EdV {
        status: None,
        pending: Pending { operator: Some(op), ..state::no_pending() },
        ..s
    }
}

/// No key waits for another, but an operator may be pending.
pub open spec fn clear(s: EdV) -> bool {
    &&& s.mode is Normal
    &&& !s.pending.register_prefix
    &&& s.pending.awaiting_char is None
    &&& s.pending.text_object is None
    &&& !s.pending.g_prefix
    &&& s.prefixes.bracket is None
    &&& s.prefixes.leader_sub is None
    &&& !s.prefixes.z
    &&& !s.prefixes.leader
    &&& !s.prefixes.record
    &&& !s.prefixes.play
    &&& !s.prefixes.mark_set
    &&& !s.prefixes.mark_jump
}

proof fn lemma_to_command(s: EdV, k: char)
    requires
        clear(s),
        k != 'M' && k != '@' && k != 'm' && k != '\'' && k != '`' && k != 'z' && k != '\\' && k
            != ' ',
    ensures
        s.normal_key(key(k)) == (EdV { status: None, ..s }).normal_command(key(k)),
{
    let x = key(k);
    reveal(EdV::normal_key);
    reveal(EdV::register_keys);
    reveal(EdV::macro_keys);
    reveal(EdV::char_keys);
    reveal(EdV::mark_keys);
    reveal(EdV::z_keys);
    reveal(EdV::leader_keys);
    reveal(EdV::fold_keys);
    reveal_strlit("C-Y");
    reveal_strlit("M");
    reveal_strlit("@");
    reveal_strlit("m");
    reveal_strlit("'");
    reveal_strlit("`");
    reveal_strlit("z");
    reveal_strlit("\\");
    reveal_strlit(" ");
    reveal_strlit("C-SPACE");
    reveal_strlit("LEFT");
    reveal_strlit("RIGHT");
    assert("C-Y"@.len() == 3);
    assert("M"@[0] == 'M' && "M"@.len() == 1);
    assert("@"@[0] == '@' && "@"@.len() == 1);
    assert("m"@[0] == 'm' && "m"@.len() == 1);
    assert("'"@[0] == '\'' && "'"@.len() == 1);
    assert("`"@[0] == '`' && "`"@.len() == 1);
    assert("z"@[0] == 'z' && "z"@.len() == 1);
    assert("\\"@[0] == '\\' && "\\"@.len() == 1);
    assert(" "@[0] == ' ' && " "@.len() == 1);
    assert("C-SPACE"@.len() == 7);
    assert("LEFT"@.len() == 4);
    assert("RIGHT"@.len() == 5);
    assert(x.len() == 1 && x[0] == k);
    let q = EdV { status: None, ..s };
    assert(q.unquoted() == q);
}

/// Keys that start or go on with a command rather than end one.
pub open spec fn leads(k: char) -> bool {
    k == 'g' || k == 'd' || k == 'c' || k == 'y' || k == '>' || k == '<' || k == ']' || k == '['
        || k == 'v' || k == 'V' || k == '.' || k == '"' || k == 'f' || k == 'F' || k == 't' || k
        == 'T' || k == 'r'
}

proof fn lemma_to_end(s: EdV, k: char)
    requires
        clear(s),
        !leads(k),
        !chars::is_digit(k) || (k == '0' && s.pending.count1 is None && s.pending.count2 is None),
        k == 'q' ==> s.pending.operator is None,
        s.pending.operator is Some ==> k != 'i' && k != 'a',
    ensures
        s.normal_command(key(k)) == (match s.motion(key(k), state::count_of(s.pending)) {
            Some(b) => typing::quiet(s.move_to(key(k), b)),
            None => (
                s.normal_action(key(k), state::count_of(s.pending)).0.clear_pending(),
                s.normal_action(key(k), state::count_of(s.pending)).1,
            ),
        }),
{
    let x = key(k);
    reveal(EdV::normal_command);
    reveal(EdV::bracket_keys);
    reveal(EdV::object_keys);
    reveal(EdV::escape_keys);
    reveal(EdV::count_keys);
    reveal(EdV::g_keys);
    reveal(EdV::op_keys);
    reveal(EdV::prefix_keys);
    reveal_strlit("s");
    reveal_strlit("]");
    reveal_strlit("[");
    reveal_strlit("ESC");
    reveal_strlit("g");
    reveal_strlit("q");
    reveal_strlit("DOWN");
    reveal_strlit("UP");
    reveal_strlit("i");
    reveal_strlit("a");
    reveal_strlit("d");
    reveal_strlit("c");
    reveal_strlit("y");
    reveal_strlit(">");
    reveal_strlit("<");
    reveal_strlit("v");
    reveal_strlit("V");
    reveal_strlit("C-V");
    reveal_strlit(".");
    reveal_strlit("\"");
    reveal_strlit("f");
    reveal_strlit("F");
    reveal_strlit("t");
    reveal_strlit("T");
    reveal_strlit("r");
    assert("s"@[0] == 's' && "s"@.len() == 1);
    assert("]"@[0] == ']' && "]"@.len() == 1);
    assert("["@[0] == '[' && "["@.len() == 1);
    assert("ESC"@.len() == 3);
    assert("g"@[0] == 'g' && "g"@.len() == 1);
    assert("q"@[0] == 'q' && "q"@.len() == 1);
    assert("DOWN"@.len() == 4);
    assert("UP"@.len() == 2);
    assert("i"@[0] == 'i' && "i"@.len() == 1);
    assert("a"@[0] == 'a' && "a"@.len() == 1);
    assert("d"@[0] == 'd' && "d"@.len() == 1);
    assert("c"@[0] == 'c' && "c"@.len() == 1);
    assert("y"@[0] == 'y' && "y"@.len() == 1);
    assert(">"@[0] == '>' && ">"@.len() == 1);
    assert("<"@[0] == '<' && "<"@.len() == 1);
    assert("v"@[0] == 'v' && "v"@.len() == 1);
    assert("V"@[0] == 'V' && "V"@.len() == 1);
    assert("C-V"@.len() == 3);
    assert("."@[0] == '.' && "."@.len() == 1);
    assert("\""@[0] == '"' && "\""@.len() == 1);
    assert("f"@[0] == 'f' && "f"@.len() == 1);
    assert("F"@[0] == 'F' && "F"@.len() == 1);
    assert("t"@[0] == 't' && "t"@.len() == 1);
    assert("T"@[0] == 'T' && "T"@.len() == 1);
    assert("r"@[0] == 'r' && "r"@.len() == 1);
    assert(x.len() == 1 && x[0] == k);
    assert(strs::head(x) == Some(k));
    assert(k == '0' ==> strs::digit_value(k) == 0);
}

proof fn lemma_operator_key(s: EdV, op: char)
    requires
        typed::at_rest(s),
        op == 'd' || op == 'c' || op == 'y' || op == '>' || op == '<',
    ensures
        s.normal_key(key(op)).0 == with_operator(s, op),
{
    let x = key(op);
    let q = EdV { status: None, ..s };
    lemma_to_command(s, op);
    reveal(EdV::normal_command);
    reveal(EdV::bracket_keys);
    reveal(EdV::object_keys);
    reveal(EdV::escape_keys);
    reveal(EdV::count_keys);
    reveal(EdV::g_keys);
    reveal(EdV::op_keys);
    reveal_strlit("]");
    reveal_strlit("[");
    reveal_strlit("ESC");
    reveal_strlit("g");
    reveal_strlit("q");
    reveal_strlit("d");
    reveal_strlit("c");
    reveal_strlit("y");
    reveal_strlit(">");
    reveal_strlit("<");
    assert("]"@[0] == ']' && "]"@.len() == 1);
    assert("["@[0] == '[' && "["@.len() == 1);
    assert("ESC"@.len() == 3);
    assert("g"@[0] == 'g' && "g"@.len() == 1);
    assert("q"@[0] == 'q' && "q"@.len() == 1);
    assert("d"@[0] == 'd' && "d"@.len() == 1);
    assert("c"@[0] == 'c' && "c"@.len() == 1);
    assert("y"@[0] == 'y' && "y"@.len() == 1);
    assert(">"@[0] == '>' && ">"@.len() == 1);
    assert("<"@[0] == '<' && "<"@.len() == 1);
    assert(x.len() == 1 && x[0] == op);
    assert(strs::head(x) == Some(op));
    assert(op == 'd' ==> x =~= "d"@);
    assert(op == 'c' ==> x =~= "c"@);
    assert(op == 'y' ==> x =~= "y"@);
    assert(op == '>' ==> x =~= ">"@);
    assert(op == '<' ==> x =~= "<"@);
}

/// An operator and a motion: with the cursor at the character `i` and the
/// motion leading to the character `j`, `d` and `c` take out what stands between
/// the two, and `y` leaves the text; the register then holds it. `c` goes on to
/// insert. The motion is one by characters.
pub proof fn law_operator_and_motion(s: EdV, op: char, k: char, i: int, j: int)
    requires
        typed::at_rest(s),
        op == 'd' || op == 'c' || op == 'y',
        !leads(k),
        !chars::is_digit(k) || k == '0',
        k != 'M' && k != '@' && k != 'm' && k != '\'' && k != '`' && k != 'z' && k != '\\' && k
            != ' ' && k != 'q' && k != 'i' && k != 'a',
        !repeat::by_lines(key(k)),
        0 <= i <= s.buf.text.len(),
        0 <= j <= s.buf.text.len(),
        i != j,
        s.cursor() == text::off(s.buf.text, i),
        with_operator(s, op).motion(key(k), 1) == Some(text::off(s.buf.text, j)),
    ensures
        ({
            let t = s.buf.text;
            let r = s.normal_key(key(op)).0.normal_key(key(k)).0;
            let a = if i < j {
                i
            } else {
                j
            };
            let b = if i < j {
                j
            } else {
                i
            };
            &&& op != 'y' ==> r.buf.text == t.take(a) + t.skip(b)
            &&& op == 'y' ==> r.buf == s.buf
            &&& r.regs.slots.contains_key('"')
            &&& r.regs.slots['"'] == (YankV { text: t.subrange(a, b), kind: YankKind::Charwise })
            &&& r.pending == state::no_pending()
        }),
{
    lemma_operator_key(s, op);
    let p = with_operator(s, op);
    lemma_to_command(p, k);
    assert((EdV { status: None, ..p }) == p);
    assert(state::count_of(p.pending) == 1);
    lemma_to_end(p, k);
    reveal(EdV::move_to);
    reveal(EdV::op_move);
    edits::law_operator_range(p, op, i, j);
}

/// `dw` and `yw` take from the cursor to where the next word starts, and `cw`
/// as well.
pub proof fn law_word_taken(s: EdV, op: char, i: int, w: int)
    requires
        typed::at_rest(s),
        op == 'd' || op == 'c' || op == 'y',
        0 <= i < w <= s.buf.text.len(),
        s.cursor() == text::off(s.buf.text, i),
        w < s.buf.text.len() ==> motion::starts_word(s.buf.text, w, false),
        forall|n: int| i < n < w ==> !#[trigger] motion::starts_word(s.buf.text, n, false),
    ensures
        ({
            let t = s.buf.text;
            let r = s.normal_key(key(op)).0.normal_key(key('w')).0;
            &&& op != 'y' ==> r.buf.text == t.take(i) + t.skip(w)
            &&& op == 'y' ==> r.buf == s.buf
            &&& r.regs.slots.contains_key('"')
            &&& r.regs.slots['"'] == (YankV { text: t.subrange(i, w), kind: YankKind::Charwise })
        }),
{
    let t = s.buf.text;
    let p = with_operator(s, op);
    motion::law_to_next_word(t, i, false);
    let n = motion::word_fwd(t, i);
    if n < w {
        assert(motion::starts_word(t, n, false));
    } else if w < n {
        assert(motion::starts_word(t, w, false));
    }
    lemma_motion_w(p, i);
    assert(!repeat::by_lines(key('w'))) by {
        let x = key('w');
        assert(x.len() == 1 && x[0] == 'w');
    reveal_strlit("j");
        reveal_strlit("DOWN");
        reveal_strlit("k");
        reveal_strlit("UP");
        reveal_strlit("G");
        reveal_strlit("-");
        reveal_strlit("C-HOME");
        reveal_strlit("C-END");
        assert("j"@[0] == 'j' && "j"@.len() == 1);
        assert("DOWN"@.len() == 4);
        assert("k"@[0] == 'k' && "k"@.len() == 1);
        assert("UP"@.len() == 2);
        assert("G"@[0] == 'G' && "G"@.len() == 1);
        assert("-"@[0] == '-' && "-"@.len() == 1);
        assert("C-HOME"@.len() == 6);
        assert("C-END"@.len() == 5);
    }
    law_operator_and_motion(s, op, 'w', i, w);
}

proof fn lemma_motion_w(s: EdV, i: int)
    requires
        0 <= i <= s.buf.text.len(),
        s.cursor() == text::off(s.buf.text, i),
    ensures
        s.motion(key('w'), 1) == Some(text::off(s.buf.text, motion::word_fwd(s.buf.text, i))),
{
    let x = key('w');
    reveal(EdV::motion);
    reveal_strlit("h");
    reveal_strlit("l");
    reveal_strlit("LEFT");
    reveal_strlit("RIGHT");
    reveal_strlit("j");
    reveal_strlit("DOWN");
    reveal_strlit("k");
    reveal_strlit("UP");
    reveal_strlit("0");
    reveal_strlit("HOME");
    reveal_strlit("C-HOME");
    reveal_strlit("C-END");
    reveal_strlit("^");
    reveal_strlit("-");
    reveal_strlit("$");
    reveal_strlit("END");
    reveal_strlit("w");
    assert("h"@[0] == 'h' && "h"@.len() == 1);
    assert("l"@[0] == 'l' && "l"@.len() == 1);
    assert("LEFT"@.len() == 4);
    assert("RIGHT"@.len() == 5);
    assert("j"@[0] == 'j' && "j"@.len() == 1);
    assert("DOWN"@.len() == 4);
    assert("k"@[0] == 'k' && "k"@.len() == 1);
    assert("UP"@.len() == 2);
    assert("0"@[0] == '0' && "0"@.len() == 1);
    assert("HOME"@.len() == 4);
    assert("C-HOME"@.len() == 6);
    assert("C-END"@.len() == 5);
    assert("^"@[0] == '^' && "^"@.len() == 1);
    assert("-"@[0] == '-' && "-"@.len() == 1);
    assert("$"@[0] == '$' && "$"@.len() == 1);
    assert("END"@.len() == 3);
    assert("w"@[0] == 'w' && "w"@.len() == 1);
    assert(x.len() == 1 && x[0] == 'w');
    assert(x =~= "w"@);
    text::lemma_at_off(s.buf.text, i);
    motions::law_word_steps(
        s.buf.text,
        s.cursor(),
        WordMotion::Forward,
        0,
        1,
    );
}

/// A doubled operator works on the cursor's line: `dd` takes it out with its
/// line break, `cc` empties it, `yy` leaves it; the register then holds the
/// whole line.
pub proof fn law_doubled_operator(s: EdV, op: char)
    requires
        typed::at_rest(s),
        op == 'd' || op == 'c' || op == 'y',
        0 <= s.line < s.line_count() < usize::MAX,
    ensures
        ({
            let t = s.buf.text;
            let a = lines::line_start(t, s.line);
            let b = lines::line_start(t, s.line + 1);
            let taken = t.subrange(a, b);
            let whole = if taken.len() > 0 && taken.last() == '\n' {
                taken
            } else {
                taken.push('\n')
            };
            let r = s.normal_key(key(op)).0.normal_key(key(op)).0;
            &&& op == 'd' ==> r.buf.text == t.take(a) + t.skip(b)
            &&& op == 'c' ==> r.buf.text == t.take(a) + seq!['\n'] + t.skip(b)
            &&& op == 'y' ==> r.buf == s.buf
            &&& r.regs.slots.contains_key('"')
            &&& r.regs.slots['"'] == (YankV { text: whole, kind: YankKind::Linewise })
        }),
{
    lemma_operator_key(s, op);
    let p = with_operator(s, op);
    let x = key(op);
    lemma_to_command(p, op);
    assert((EdV { status: None, ..p }) == p);
    reveal(EdV::normal_command);
    reveal(EdV::bracket_keys);
    reveal(EdV::object_keys);
    reveal(EdV::escape_keys);
    reveal(EdV::count_keys);
    reveal(EdV::g_keys);
    reveal(EdV::op_keys);
    reveal(EdV::op_doubled);
    reveal_strlit("]");
    reveal_strlit("[");
    reveal_strlit("ESC");
    reveal_strlit("g");
    reveal_strlit("q");
    reveal_strlit("d");
    reveal_strlit("c");
    reveal_strlit("y");
    reveal_strlit(">");
    reveal_strlit("<");
    assert("]"@[0] == ']' && "]"@.len() == 1);
    assert("["@[0] == '[' && "["@.len() == 1);
    assert("ESC"@.len() == 3);
    assert("g"@[0] == 'g' && "g"@.len() == 1);
    assert("q"@[0] == 'q' && "q"@.len() == 1);
    assert("d"@[0] == 'd' && "d"@.len() == 1);
    assert("c"@[0] == 'c' && "c"@.len() == 1);
    assert("y"@[0] == 'y' && "y"@.len() == 1);
    assert(">"@[0] == '>' && ">"@.len() == 1);
    assert("<"@[0] == '<' && "<"@.len() == 1);
    assert(x.len() == 1 && x[0] == op);
    assert(strs::head(x) == Some(op));
    assert(op == 'd' ==> x =~= "d"@);
    assert(op == 'c' ==> x =~= "c"@);
    assert(op == 'y' ==> x =~= "y"@);
    edits::law_lines_removed(p, op, s.line, 0);
}

/// Keys that edit in place.
pub open spec fn edits_here(k: char) -> bool {
    k == 'x' || k == 'X' || k == 'D' || k == 'Y' || k == 'J' || k == '~' || k == 'p' || k == 'P'
}

proof fn lemma_no_motion(s: EdV, k: char, n: int)
    requires
        edits_here(k) || typed::inserts(k),
    ensures
        s.motion(key(k), n) is None,
{
    let x = key(k);
    reveal(EdV::motion);
    reveal_strlit("h");
    reveal_strlit("l");
    reveal_strlit("LEFT");
    reveal_strlit("RIGHT");
    reveal_strlit("j");
    reveal_strlit("DOWN");
    reveal_strlit("k");
    reveal_strlit("UP");
    reveal_strlit("0");
    reveal_strlit("HOME");
    reveal_strlit("C-HOME");
    reveal_strlit("C-END");
    reveal_strlit("^");
    reveal_strlit("-");
    reveal_strlit("$");
    reveal_strlit("END");
    reveal_strlit("w");
    reveal_strlit("b");
    reveal_strlit("e");
    reveal_strlit("E");
    reveal_strlit("W");
    reveal_strlit("B");
    reveal_strlit("G");
    reveal_strlit("n");
    reveal_strlit("N");
    assert("h"@[0] == 'h' && "h"@.len() == 1);
    assert("l"@[0] == 'l' && "l"@.len() == 1);
    assert("LEFT"@.len() == 4);
    assert("RIGHT"@.len() == 5);
    assert("j"@[0] == 'j' && "j"@.len() == 1);
    assert("DOWN"@.len() == 4);
    assert("k"@[0] == 'k' && "k"@.len() == 1);
    assert("UP"@.len() == 2);
    assert("0"@[0] == '0' && "0"@.len() == 1);
    assert("HOME"@.len() == 4);
    assert("C-HOME"@.len() == 6);
    assert("C-END"@.len() == 5);
    assert("^"@[0] == '^' && "^"@.len() == 1);
    assert("-"@[0] == '-' && "-"@.len() == 1);
    assert("$"@[0] == '$' && "$"@.len() == 1);
    assert("END"@.len() == 3);
    assert("w"@[0] == 'w' && "w"@.len() == 1);
    assert("b"@[0] == 'b' && "b"@.len() == 1);
    assert("e"@[0] == 'e' && "e"@.len() == 1);
    assert("E"@[0] == 'E' && "E"@.len() == 1);
    assert("W"@[0] == 'W' && "W"@.len() == 1);
    assert("B"@[0] == 'B' && "B"@.len() == 1);
    assert("G"@[0] == 'G' && "G"@.len() == 1);
    assert("n"@[0] == 'n' && "n"@.len() == 1);
    assert("N"@[0] == 'N' && "N"@.len() == 1);
    assert(x.len() == 1 && x[0] == k);
}

proof fn lemma_no_page(s: EdV, k: char, n: int)
    requires
        k != 'K',
    ensures
        s.page_action(key(k), n) is None,
{
    let x = key(k);
    reveal(EdV::page_action);
    reveal_strlit("K");
    reveal_strlit("PgDOWN");
    reveal_strlit("C-D");
    reveal_strlit("PgUP");
    reveal_strlit("C-U");
    reveal_strlit("C-UP");
    reveal_strlit("C-DOWN");
    reveal_strlit("C-A");
    reveal_strlit("C-X");
    assert("K"@[0] == 'K' && "K"@.len() == 1);
    assert("PgDOWN"@.len() == 6);
    assert("C-D"@.len() == 3);
    assert("PgUP"@.len() == 4);
    assert("C-U"@.len() == 3);
    assert("C-UP"@.len() == 4);
    assert("C-DOWN"@.len() == 6);
    assert("C-A"@.len() == 3);
    assert("C-X"@.len() == 3);
    assert(x.len() == 1 && x[0] == k);
}

proof fn lemma_no_enter(s: EdV, k: char, n: int)
    requires
        edits_here(k),
    ensures
        s.enter_action(key(k), n) is None,
{
    let x = key(k);
    reveal(EdV::enter_action);
    reveal_strlit("i");
    reveal_strlit("a");
    reveal_strlit("I");
    reveal_strlit("A");
    reveal_strlit("o");
    reveal_strlit("O");
    reveal_strlit("R");
    reveal_strlit("s");
    reveal_strlit("S");
    reveal_strlit("C");
    assert("i"@[0] == 'i' && "i"@.len() == 1);
    assert("a"@[0] == 'a' && "a"@.len() == 1);
    assert("I"@[0] == 'I' && "I"@.len() == 1);
    assert("A"@[0] == 'A' && "A"@.len() == 1);
    assert("o"@[0] == 'o' && "o"@.len() == 1);
    assert("O"@[0] == 'O' && "O"@.len() == 1);
    assert("R"@[0] == 'R' && "R"@.len() == 1);
    assert("s"@[0] == 's' && "s"@.len() == 1);
    assert("S"@[0] == 'S' && "S"@.len() == 1);
    assert("C"@[0] == 'C' && "C"@.len() == 1);
    assert(x.len() == 1 && x[0] == k);
}

proof fn lemma_edit_key(s: EdV, k: char)
    requires
        typed::at_rest(s),
        edits_here(k),
    ensures
        ({
            let q = EdV { status: None, ..s };
            &&& q.edit_action(key(k), 1) is Some
            &&& s.normal_key(key(k)).0 == (q.edit_action(key(k), 1)->0).0.clear_pending()
        }),
{
    let q = EdV { status: None, ..s };
    let x = key(k);
    lemma_to_command(s, k);
    assert(state::count_of(q.pending) == 1);
    lemma_to_end(q, k);
    lemma_no_motion(q, k, 1);
    lemma_no_page(q, k, 1);
    lemma_no_enter(q, k, 1);
    reveal(EdV::normal_action);
    reveal(EdV::edit_action);
    reveal_strlit("x");
    reveal_strlit("X");
    reveal_strlit("D");
    reveal_strlit("Y");
    reveal_strlit("J");
    reveal_strlit("~");
    reveal_strlit("p");
    reveal_strlit("P");
    assert("x"@[0] == 'x' && "x"@.len() == 1);
    assert("X"@[0] == 'X' && "X"@.len() == 1);
    assert("D"@[0] == 'D' && "D"@.len() == 1);
    assert("Y"@[0] == 'Y' && "Y"@.len() == 1);
    assert("J"@[0] == 'J' && "J"@.len() == 1);
    assert("~"@[0] == '~' && "~"@.len() == 1);
    assert("p"@[0] == 'p' && "p"@.len() == 1);
    assert("P"@[0] == 'P' && "P"@.len() == 1);
    assert(x.len() == 1 && x[0] == k);
    assert(k == 'x' ==> x =~= "x"@);
    assert(k == 'X' ==> x =~= "X"@);
    assert(k == 'D' ==> x =~= "D"@);
    assert(k == 'Y' ==> x =~= "Y"@);
    assert(k == 'J' ==> x =~= "J"@);
    assert(k == '~' ==> x =~= "~"@);
    assert(k == 'p' ==> x =~= "p"@);
    assert(k == 'P' ==> x =~= "P"@);
}

/// `p` puts characters from the unnamed register after the character at the
/// cursor and `P` puts them before it.
pub proof fn law_put_keys(s: EdV, i: int)
    requires
        typed::at_rest(s),
        edits::stands_on(s, i),
        s.regs.slots.contains_key('"'),
        s.regs.slots['"'].kind is Charwise,
    ensures
        ({
            let t = s.buf.text;
            let y = s.regs.slots['"'].text;
            &&& s.normal_key(key('p')).0.buf.text == t.take(i + 1) + y + t.skip(i + 1)
            &&& s.normal_key(key('P')).0.buf.text == t.take(i) + y + t.skip(i)
        }),
{
    let q = EdV { status: None, ..s };
    lemma_edit_key(s, 'p');
    lemma_edit_key(s, 'P');
    lemma_edit_cases(q);
    reveal(EdV::put_key);
    assert(edits::stands_on(q, i));
    edits::law_put_chars(q, true, 1, i, '"');
    edits::law_put_chars(q, false, 1, i, '"');
    edits::law_repeated(s.regs.slots['"'].text, 1, 0);
}

proof fn lemma_edit_cases(q: EdV)
    ensures
        (q.edit_action(key('x'), 1)->0).0 == q.cross_out_times(1),
        (q.edit_action(key('X'), 1)->0).0 == q.cross_back_times(1),
        (q.edit_action(key('D'), 1)->0).0 == q.op_to_end('d'),
        (q.edit_action(key('J'), 1)->0).0 == q.join_times(1),
        (q.edit_action(key('~'), 1)->0).0 == q.flip_char(),
        (q.edit_action(key('p'), 1)->0).0 == q.put_key(true, 1),
        (q.edit_action(key('P'), 1)->0).0 == q.put_key(false, 1),
{
    reveal(EdV::edit_action);
    reveal_strlit("x");
    reveal_strlit("X");
    reveal_strlit("D");
    reveal_strlit("Y");
    reveal_strlit("J");
    reveal_strlit("~");
    reveal_strlit("p");
    reveal_strlit("P");
    assert("x"@[0] == 'x' && "x"@.len() == 1);
    assert("X"@[0] == 'X' && "X"@.len() == 1);
    assert("D"@[0] == 'D' && "D"@.len() == 1);
    assert("Y"@[0] == 'Y' && "Y"@.len() == 1);
    assert("J"@[0] == 'J' && "J"@.len() == 1);
    assert("~"@[0] == '~' && "~"@.len() == 1);
    assert("p"@[0] == 'p' && "p"@.len() == 1);
    assert("P"@[0] == 'P' && "P"@.len() == 1);
    assert(key('x') =~= "x"@);
    assert(key('X') =~= "X"@);
    assert(key('D') =~= "D"@);
    assert(key('J') =~= "J"@);
    assert(key('~') =~= "~"@);
    assert(key('p') =~= "p"@);
    assert(key('P') =~= "P"@);
}

/// `x` takes out the character at the cursor, `X` the one before it, `D` all
/// from the cursor to the end of the line, and `~` flips the case of the
/// character at the cursor.
pub proof fn law_edit_keys(s: EdV, i: int)
    requires
        typed::at_rest(s),
        edits::stands_on(s, i),
        edits::firm(s),
    ensures
        ({
            let t = s.buf.text;
            let st = lines::line_start(t, s.line);
            let e = st + lines::line_text(t, s.line).len();
            &&& s.normal_key(key('x')).0.buf.text == t.take(i) + t.skip(i + 1)
            &&& i > st ==> s.normal_key(key('X')).0.buf.text == t.take(i - 1) + t.skip(i)
            &&& i == st ==> s.normal_key(key('X')).0.buf == s.buf
            &&& s.normal_key(key('D')).0.buf.text == t.take(i) + t.skip(e)
            &&& 'A' <= t[i] <= 'Z' ==> 'a' <= s.normal_key(key('~')).0.buf.text[i] <= 'z'
            &&& s.normal_key(key('~')).0.buf.text == t.update(
                i,
                s.normal_key(key('~')).0.buf.text[i],
            )
        }),
{
    let q = EdV { status: None, ..s };
    assert(edits::stands_on(q, i));
    assert(edits::firm(q));
    lemma_edit_key(s, 'x');
    lemma_edit_key(s, 'X');
    lemma_edit_key(s, 'D');
    lemma_edit_key(s, '~');
    lemma_edit_cases(q);
    edits::law_cross_out(q, i);
    edits::law_cross_back(q, i);
    edits::law_to_end_removed(q, i, 'd');
    edits::law_flip_char(q, i);
    assert(q.cross_out().cross_out_times(0) == q.cross_out());
    assert(q.cross_back().cross_back_times(0) == q.cross_back());
}

proof fn lemma_enter_key(s: EdV, k: char)
    requires
        typed::at_rest(s),
        typed::inserts(k),
    ensures
        ({
            let q = EdV { status: None, ..s };
            let r = s.normal_key(key(k)).0;
            &&& k == 'i' ==> r == q.enter_insert().clear_pending()
            &&& k == 'a' ==> r == q.append().clear_pending()
            &&& k == 'I' ==> r == q.insert_first().clear_pending()
            &&& k == 'A' ==> r == q.append_last().clear_pending()
            &&& k == 'o' ==> r == q.open_below().clear_pending()
            &&& k == 'O' ==> r == q.open_above().clear_pending()
        }),
{
    let q = EdV { status: None, ..s };
    let x = key(k);
    lemma_to_command(s, k);
    assert(state::count_of(q.pending) == 1);
    lemma_to_end(q, k);
    lemma_no_motion(q, k, 1);
    lemma_no_page(q, k, 1);
    reveal(EdV::normal_action);
    reveal(EdV::enter_action);
    reveal_strlit("i");
    reveal_strlit("a");
    reveal_strlit("I");
    reveal_strlit("A");
    reveal_strlit("o");
    reveal_strlit("O");
    reveal_strlit("R");
    reveal_strlit("s");
    reveal_strlit("S");
    reveal_strlit("C");
    assert("i"@[0] == 'i' && "i"@.len() == 1);
    assert("a"@[0] == 'a' && "a"@.len() == 1);
    assert("I"@[0] == 'I' && "I"@.len() == 1);
    assert("A"@[0] == 'A' && "A"@.len() == 1);
    assert("o"@[0] == 'o' && "o"@.len() == 1);
    assert("O"@[0] == 'O' && "O"@.len() == 1);
    assert("R"@[0] == 'R' && "R"@.len() == 1);
    assert("s"@[0] == 's' && "s"@.len() == 1);
    assert("S"@[0] == 'S' && "S"@.len() == 1);
    assert("C"@[0] == 'C' && "C"@.len() == 1);
    assert(x.len() == 1 && x[0] == k);
    assert(k == 'i' ==> x =~= "i"@);
    assert(k == 'a' ==> x =~= "a"@);
    assert(k == 'I' ==> x =~= "I"@);
    assert(k == 'A' ==> x =~= "A"@);
    assert(k == 'o' ==> x =~= "o"@);
    assert(k == 'O' ==> x =~= "O"@);
}

/// The keys that start to insert: `i` where the cursor is, `a` after its
/// character, `I` at the head of its line and `A` at the end; `o` opens a line
/// below and `O` one above. All of them lead to Insert mode.
pub proof fn law_insert_keys(s: EdV, i: int, n: int)
    requires
        typed::at_rest(s),
        edits::stands_on(s, i),
        edits::firm(s),
        s.line_count() < usize::MAX,
        edits::led_by(s, s.line, n),
        !s.folds.closed.contains(s.line),
    ensures
        ({
            let t = s.buf.text;
            let st = lines::line_start(t, s.line);
            let l = lines::line_text(t, s.line);
            let e = st + l.len();
            &&& s.normal_key(key('i')).0.cursor() == text::off(t, i)
            &&& s.normal_key(key('a')).0.cursor() == text::off(t, i + 1)
            &&& s.normal_key(key('I')).0.cursor() == text::off(t, st)
            &&& s.normal_key(key('A')).0.cursor() == text::off(t, e)
            &&& s.normal_key(key('o')).0.buf.text == t.take(e) + seq!['\n'] + l.take(n) + t.skip(e)
            &&& s.normal_key(key('O')).0.buf.text == t.take(st) + (l.take(n) + seq!['\n']) + t.skip(
                st,
            )
            &&& forall|k: char| typed::inserts(k) ==> (#[trigger] s.normal_key(key(k))).0.mode is Insert
        }),
{
    let q = EdV { status: None, ..s };
    assert(edits::stands_on(q, i));
    assert(edits::firm(q));
    assert(edits::led_by(q, q.line, n));
    lemma_enter_key(s, 'i');
    lemma_enter_key(s, 'a');
    lemma_enter_key(s, 'I');
    lemma_enter_key(s, 'A');
    lemma_enter_key(s, 'o');
    lemma_enter_key(s, 'O');
    edits::law_where_inserting_starts(q, i);
    edits::law_open_below(q, n);
    edits::law_open_above(q, n);
}

/// The keys of a text object, one after the other: an operator, `i` or `a`,
/// and what is meant.
pub open spec fn object_pressed(s: EdV, op: char, kind: char, c: char) -> EdV {
    s.normal_key(key(op)).0.normal_key(key(kind)).0.normal_key(key(c)).0
}

proof fn lemma_object_kind(s: EdV, op: char, kind: char)
    requires
        typed::at_rest(s),
        op == 'd' || op == 'c' || op == 'y' || op == '>' || op == '<',
        kind == 'i' || kind == 'a',
    ensures
        with_operator(s, op).normal_key(key(kind)).0 == with_operator(s, op).with_pending(
            Pending { operator: Some(op), text_object: Some(kind), ..state::no_pending() },
        ),
{
    let x = key(kind);
    let p = with_operator(s, op);
    lemma_to_command(p, kind);
    assert((EdV { status: None, ..p }) == p);
    reveal(EdV::normal_command);
    reveal(EdV::bracket_keys);
    reveal(EdV::object_keys);
    reveal(EdV::escape_keys);
    reveal(EdV::count_keys);
    reveal(EdV::g_keys);
    reveal(EdV::op_keys);
    reveal_strlit("]");
    reveal_strlit("[");
    reveal_strlit("ESC");
    reveal_strlit("g");
    reveal_strlit("q");
    reveal_strlit("d");
    reveal_strlit("c");
    reveal_strlit("y");
    reveal_strlit(">");
    reveal_strlit("<");
    reveal_strlit("i");
    reveal_strlit("a");
    assert("]"@[0] == ']' && "]"@.len() == 1);
    assert("["@[0] == '[' && "["@.len() == 1);
    assert("ESC"@.len() == 3);
    assert("g"@[0] == 'g' && "g"@.len() == 1);
    assert("q"@[0] == 'q' && "q"@.len() == 1);
    assert("d"@[0] == 'd' && "d"@.len() == 1);
    assert("c"@[0] == 'c' && "c"@.len() == 1);
    assert("y"@[0] == 'y' && "y"@.len() == 1);
    assert(">"@[0] == '>' && ">"@.len() == 1);
    assert("<"@[0] == '<' && "<"@.len() == 1);
    assert("i"@[0] == 'i' && "i"@.len() == 1);
    assert("a"@[0] == 'a' && "a"@.len() == 1);
    assert(x.len() == 1 && x[0] == kind);
    assert(strs::head(x) == Some(kind));
    assert(kind == 'i' ==> x =~= "i"@);
    assert(kind == 'a' ==> x =~= "a"@);
}

proof fn lemma_object_target(q: EdV, op: char, kind: char, c: char)
    requires
        q.pending == (Pending { operator: Some(op), text_object: Some(kind), ..state::no_pending() }),
        q.mode is Normal,
        q.status is None,
        q.prefixes.bracket is None,
        q.prefixes.leader_sub is None,
        !q.prefixes.z,
        !q.prefixes.leader,
        !q.prefixes.record,
        !q.prefixes.play,
        !q.prefixes.mark_set,
        !q.prefixes.mark_jump,
        c != 'z' && c != '\\' && c != ' ',
    ensures
        q.normal_key(key(c)).0 == q.with_pending(
            Pending { operator: Some(op), ..state::no_pending() },
        ).take_object(kind, c).clear_pending(),
{
    let x = key(c);
    reveal(EdV::normal_key);
    reveal(EdV::register_keys);
    reveal(EdV::macro_keys);
    reveal(EdV::char_keys);
    reveal(EdV::mark_keys);
    reveal(EdV::z_keys);
    reveal(EdV::leader_keys);
    reveal(EdV::fold_keys);
    reveal(EdV::normal_command);
    reveal(EdV::bracket_keys);
    reveal(EdV::object_keys);
    reveal_strlit("C-Y");
    reveal_strlit("M");
    reveal_strlit("@");
    reveal_strlit("m");
    reveal_strlit("'");
    reveal_strlit("`");
    reveal_strlit("z");
    reveal_strlit("\\");
    reveal_strlit(" ");
    reveal_strlit("C-SPACE");
    reveal_strlit("LEFT");
    reveal_strlit("RIGHT");
    reveal_strlit("]");
    reveal_strlit("[");
    assert("C-Y"@.len() == 3);
    assert("M"@[0] == 'M' && "M"@.len() == 1);
    assert("@"@[0] == '@' && "@"@.len() == 1);
    assert("m"@[0] == 'm' && "m"@.len() == 1);
    assert("'"@[0] == '\'' && "'"@.len() == 1);
    assert("`"@[0] == '`' && "`"@.len() == 1);
    assert("z"@[0] == 'z' && "z"@.len() == 1);
    assert("\\"@[0] == '\\' && "\\"@.len() == 1);
    assert(" "@[0] == ' ' && " "@.len() == 1);
    assert("C-SPACE"@.len() == 7);
    assert("LEFT"@.len() == 4);
    assert("RIGHT"@.len() == 5);
    assert("]"@[0] == ']' && "]"@.len() == 1);
    assert("["@[0] == '[' && "["@.len() == 1);
    assert(x.len() == 1 && x[0] == c);
    assert(strs::head(x) == Some(c));
    assert((EdV { status: None, ..q }) == q);
    assert(q.unquoted() == q);
    let b = EdV { prefixes: q.prefixes, ..q };
    assert(b == q);
}

/// An operator on the text object that stands at the characters `a` to `b`
/// takes just these, or leaves them when it yanks; the register then holds
/// them.
pub proof fn law_object_taken(s: EdV, op: char, kind: char, c: char, a: int, b: int)
    requires
        typed::at_rest(s),
        op == 'd' || op == 'c' || op == 'y',
        kind == 'i' || kind == 'a',
        c != 'z' && c != '\\' && c != ' ',
        0 <= a < b <= s.buf.text.len(),
        s.object(kind, c) == Some((text::off(s.buf.text, a), text::off(s.buf.text, b))),
    ensures
        ({
            let t = s.buf.text;
            let r = object_pressed(s, op, kind, c);
            &&& op != 'y' ==> r.buf.text == t.take(a) + t.skip(b)
            &&& op == 'y' ==> r.buf == s.buf
            &&& r.regs.slots.contains_key('"')
            &&& r.regs.slots['"'] == (YankV { text: t.subrange(a, b), kind: YankKind::Charwise })
        }),
{
    let p = with_operator(s, op);
    lemma_operator_key(s, op);
    lemma_object_kind(s, op, kind);
    let q = p.with_pending(
        Pending { operator: Some(op), text_object: Some(kind), ..state::no_pending() },
    );
    lemma_object_target(q, op, kind, c);
    assert(q.with_pending(Pending { operator: Some(op), ..state::no_pending() }) == p);
    assert(p.object(kind, c) == s.object(kind, c)) by {
        reveal(EdV::object);
    }
    reveal(EdV::take_object);
    reveal(EdV::op_object);
    if op == 'y' {
        edits::law_range_yanked(p, a, b);
    } else {
        edits::law_range_removed(p, op, a, b);
    }
    let t = s.buf.text;
    assert(p.op_charwise(op, text::off(t, a), text::off(t, b)).regs.slots.contains_key('"'));
}

/// `iw` is the word that the cursor is on: an operator on it takes the longest
/// run of characters of one class around the character `i`.
pub proof fn law_word_object(s: EdV, op: char, i: int, a: int, b: int)
    requires
        typed::at_rest(s),
        op == 'd' || op == 'c',
        0 <= a <= i < b <= s.buf.text.len(),
        s.cursor() == text::off(s.buf.text, i),
        !(motion::class_of(s.buf.text[i]) is Space),
        forall|k: int|
            a <= k < b ==> motion::class_of(#[trigger] s.buf.text[k]) == motion::class_of(
                s.buf.text[i],
            ),
        a > 0 ==> motion::class_of(s.buf.text[a - 1]) != motion::class_of(s.buf.text[i]),
        b < s.buf.text.len() ==> motion::class_of(s.buf.text[b]) != motion::class_of(
            s.buf.text[i],
        ),
    ensures
        object_pressed(s, op, 'i', 'w').buf.text == s.buf.text.take(a) + s.buf.text.skip(b),
{
    let t = s.buf.text;
    reveal(EdV::object);
    text::lemma_at_off(t, i);
    textobj::law_inner_word(t, i);
    let (x, y) = textobj::word_at(t, i)->0;
    if x < a {
        assert(x <= a - 1 < y);
        assert(motion::class_of(t[a - 1]) == motion::class_of(t[i]));
    } else if a < x {
        assert(a <= x - 1 < b);
        assert(motion::class_of(t[x - 1]) == motion::class_of(t[i]));
    }
    if y < b {
        assert(motion::class_of(t[y]) == motion::class_of(t[i]));
    } else if b < y {
        assert(motion::class_of(t[b]) == motion::class_of(t[i]));
    }
    law_object_taken(s, op, 'i', 'w', a, b);
}

/// The two brackets that a key stands for.
pub open spec fn brackets(c: char, open: char, close: char) -> bool {
    ||| open == '(' && close == ')' && (c == '(' || c == ')' || c == 'b')
    ||| open == '[' && close == ']' && (c == '[' || c == ']')
    ||| open == '{' && close == '}' && (c == '{' || c == '}' || c == 'B')
    ||| open == '<' && close == '>' && (c == '<' || c == '>')
}

/// With `a` and `b` the ends of what stands between the brackets around the
/// cursor, `di(` takes what is inside them and `da(` the brackets besides.
pub proof fn law_bracket_object(s: EdV, i: int, c: char, open: char, close: char, a: int, b: int)
    requires
        typed::at_rest(s),
        0 <= i < s.buf.text.len(),
        s.buf.text[i] != open,
        s.cursor() == text::off(s.buf.text, i),
        brackets(c, open, close),
        textobj::encloses(s.buf.text, i, a, b, open, close),
    ensures
        a < b ==> object_pressed(s, 'd', 'i', c).buf.text == s.buf.text.take(a) + s.buf.text.skip(b),
        object_pressed(s, 'd', 'a', c).buf.text == s.buf.text.take(a - 1) + s.buf.text.skip(b + 1),
{
    let t = s.buf.text;
    reveal(EdV::object);
    text::lemma_at_off(t, i);
    textobj::law_pair(t, i, open, close, a, b);
    assert(text::off(t, a) == text::off(t, a - 1) + text::clen(open));
    assert(text::off(t, b + 1) == text::off(t, b) + text::clen(close));
    if a < b {
        law_object_taken(s, 'd', 'i', c, a, b);
    }
    law_object_taken(s, 'd', 'a', c, a - 1, b + 1);
}

/// A selection is under way and no key waits for another.
pub open spec fn selecting(s: EdV) -> bool {
    &&& s.mode is Visual
    &&& s.pending == state::no_pending()
    &&& !s.prefixes.visual_replace
    &&& s.prefixes.leader_sub is None
    &&& !s.prefixes.leader
}

/// Keys that work on a selection.
pub open spec fn works_on_selection(k: char) -> bool {
    k == 'd' || k == 'x' || k == 'c' || k == 's' || k == 'y' || k == 'u' || k == 'U' || k == '~'
}

proof fn lemma_selection_key(s: EdV, k: char)
    requires
        selecting(s),
        works_on_selection(k),
    ensures
        k == 'd' || k == 'x' ==> s.visual_key(key(k)).0 == s.visual_op('d'),
        k == 'c' || k == 's' ==> s.visual_key(key(k)).0 == s.visual_op('c'),
        k == 'y' ==> s.visual_key(key(k)).0 == s.visual_op('y'),
        k == 'u' ==> s.visual_key(key(k)).0 == s.visual_case(CaseOp::Lower),
        k == 'U' ==> s.visual_key(key(k)).0 == s.visual_case(CaseOp::Upper),
        k == '~' ==> s.visual_key(key(k)).0 == s.visual_case(CaseOp::Toggle),
{
    let x = key(k);
    reveal(EdV::visual_key);
    reveal(EdV::select_register);
    reveal(EdV::leader_keys);
    reveal(EdV::select_find);
    reveal(EdV::select_g);
    reveal(EdV::count_keys);
    reveal(EdV::select_mode);
    reveal(EdV::select_op);
    reveal_strlit("\\");
    reveal_strlit(" ");
    reveal_strlit("C-SPACE");
    reveal_strlit("f");
    reveal_strlit("F");
    reveal_strlit("t");
    reveal_strlit("T");
    reveal_strlit("g");
    reveal_strlit("ESC");
    reveal_strlit("C-[");
    reveal_strlit("v");
    reveal_strlit("V");
    reveal_strlit("C-V");
    reveal_strlit("d");
    reveal_strlit("x");
    reveal_strlit("X");
    reveal_strlit("D");
    reveal_strlit("c");
    reveal_strlit("C");
    reveal_strlit("s");
    reveal_strlit("r");
    reveal_strlit("y");
    reveal_strlit("Y");
    reveal_strlit(">");
    reveal_strlit("<");
    reveal_strlit("~");
    reveal_strlit("u");
    reveal_strlit("U");
    assert("\\"@[0] == '\\' && "\\"@.len() == 1);
    assert(" "@[0] == ' ' && " "@.len() == 1);
    assert("C-SPACE"@.len() == 7);
    assert("f"@[0] == 'f' && "f"@.len() == 1);
    assert("F"@[0] == 'F' && "F"@.len() == 1);
    assert("t"@[0] == 't' && "t"@.len() == 1);
    assert("T"@[0] == 'T' && "T"@.len() == 1);
    assert("g"@[0] == 'g' && "g"@.len() == 1);
    assert("ESC"@.len() == 3);
    assert("C-["@.len() == 3);
    assert("v"@[0] == 'v' && "v"@.len() == 1);
    assert("V"@[0] == 'V' && "V"@.len() == 1);
    assert("C-V"@.len() == 3);
    assert("d"@[0] == 'd' && "d"@.len() == 1);
    assert("x"@[0] == 'x' && "x"@.len() == 1);
    assert("X"@[0] == 'X' && "X"@.len() == 1);
    assert("D"@[0] == 'D' && "D"@.len() == 1);
    assert("c"@[0] == 'c' && "c"@.len() == 1);
    assert("C"@[0] == 'C' && "C"@.len() == 1);
    assert("s"@[0] == 's' && "s"@.len() == 1);
    assert("r"@[0] == 'r' && "r"@.len() == 1);
    assert("y"@[0] == 'y' && "y"@.len() == 1);
    assert("Y"@[0] == 'Y' && "Y"@.len() == 1);
    assert(">"@[0] == '>' && ">"@.len() == 1);
    assert("<"@[0] == '<' && "<"@.len() == 1);
    assert("~"@[0] == '~' && "~"@.len() == 1);
    assert("u"@[0] == 'u' && "u"@.len() == 1);
    assert("U"@[0] == 'U' && "U"@.len() == 1);
    assert(x.len() == 1 && x[0] == k);
    assert(strs::head(x) == Some(k));
    assert(s.unquoted() == s);
    assert(k == 'd' ==> x =~= "d"@);
    assert(k == 'x' ==> x =~= "x"@);
    assert(k == 'c' ==> x =~= "c"@);
    assert(k == 's' ==> x =~= "s"@);
    assert(k == 'y' ==> x =~= "y"@);
    assert(k == 'u' ==> x =~= "u"@);
    assert(k == 'U' ==> x =~= "U"@);
    assert(k == '~' ==> x =~= "~"@);
}

/// On a selection from the character `a` to the character `b`: `d` and `x` take
/// it out, `c` and `s` take it out and insert, `y` leaves it in, and all of them
/// put it in the register; `u` and `U` turn its letters small and capital. All
/// but `c` and `s` lead back to Normal mode.
pub proof fn law_selection_keys(s: EdV, a: int, b: int, k: char)
    requires
        selecting(s),
        selections::selects(s, a, b),
        works_on_selection(k),
    ensures
        ({
            let t = s.buf.text;
            let x = t.subrange(a, b + 1);
            let r = s.visual_key(key(k)).0;
            let takes = k == 'd' || k == 'x' || k == 'c' || k == 's';
            &&& takes ==> r.buf.text == t.take(a) + t.skip(b + 1)
            &&& k == 'y' ==> r.buf == s.buf
            &&& takes || k == 'y' ==> r.regs.slots.contains_key('"') && r.regs.slots['"'].text == x
            &&& r.mode is Insert <==> k == 'c' || k == 's'
            &&& r.mode is Normal <==> !(k == 'c' || k == 's')
            &&& k == 'u' ==> r.buf.text == t.take(a) + visual::recased_text(
                x,
                CaseOp::Lower,
                b + 1 - a,
            ) + t.skip(b + 1)
            &&& k == 'U' ==> r.buf.text == t.take(a) + visual::recased_text(
                x,
                CaseOp::Upper,
                b + 1 - a,
            ) + t.skip(b + 1)
        }),
{
    lemma_selection_key(s, k);
    if k == 'd' || k == 'x' {
        selections::law_selection_operated(s, a, b, 'd');
    } else if k == 'c' || k == 's' {
        selections::law_selection_operated(s, a, b, 'c');
    } else if k == 'y' {
        selections::law_selection_operated(s, a, b, 'y');
    } else if k == 'u' {
        selections::law_selection_recased(s, a, b, CaseOp::Lower);
    } else if k == 'U' {
        selections::law_selection_recased(s, a, b, CaseOp::Upper);
    } else {
        selections::law_selection_recased(s, a, b, CaseOp::Toggle);
    }
}

/// Keys pressed one after the other.
pub open spec fn pressed(s: EdV, ks: Seq<char>, n: int) -> EdV
    decreases n,
{
    if n <= 0 {
        s
    } else {
        pressed(s, ks, n - 1).normal_key(key(ks[n - 1])).0
    }
}

/// The state with a count and nothing else.
pub open spec fn with_count(s: EdV, n: int) -> EdV {
    EdV {
        status: None,
        pending: Pending { count1: Some(n as usize), ..state::no_pending() },
        ..s
    }
}

proof fn lemma_digit_key(s: EdV, d: char)
    requires
        clear(s),
        s.pending.operator is None,
        chars::is_digit(d),
        d != '0' || s.pending.count1 is Some,
    ensures
        s.normal_key(key(d)).0 == (EdV {
            status: None,
            pending: Pending {
                count1: normal::count_digit(s.pending.count1, strs::digit_value(d)),
                ..s.pending
            },
            ..s
        }),
{
    let x = key(d);
    lemma_to_command(s, d);
    reveal(EdV::normal_command);
    reveal(EdV::bracket_keys);
    reveal(EdV::object_keys);
    reveal(EdV::escape_keys);
    reveal(EdV::count_keys);
    reveal_strlit("]");
    reveal_strlit("[");
    reveal_strlit("ESC");
    assert("]"@[0] == ']' && "]"@.len() == 1);
    assert("["@[0] == '[' && "["@.len() == 1);
    assert("ESC"@.len() == 3);
    assert(x.len() == 1 && x[0] == d);
    assert(strs::head(x) == Some(d));
}

proof fn lemma_pressed_front(s: EdV, a: Seq<char>, c: char, n: int)
    requires
        n <= a.len(),
    ensures
        pressed(s, a.push(c), n) == pressed(s, a, n),
    decreases n,
{
    if n > 0 {
        lemma_pressed_front(s, a, c, n - 1);
        assert(a.push(c)[n - 1] == a[n - 1]);
    }
}

/// The digits of a number, typed one after the other, make it the count.
pub proof fn law_count_typed(s: EdV, n: int)
    requires
        typed::at_rest(s),
        0 < n <= usize::MAX,
    ensures
        pressed(s, strs::dec_of(n), strs::dec_of(n).len() as int) == with_count(s, n),
    decreases n,
{
    let d = strs::dec_of(n);
    reveal_with_fuel(pressed, 2);
    if n < 10 {
        assert(d =~= seq![strs::digit_of(n)]);
        assert(d[0] == strs::digit_of(n));
        assert(pressed(s, d, 0) == s);
        lemma_digit_key(s, d[0]);
        assert(strs::digit_value(d[0]) == n);
    } else {
        let f = strs::dec_of(n / 10);
        let c = strs::digit_of(n % 10);
        law_count_typed(s, n / 10);
        lemma_pressed_front(s, f, c, f.len() as int);
        assert(d == f.push(c));
        assert(d[f.len() as int] == c);
        let w = with_count(s, n / 10);
        lemma_digit_key(w, c);
        assert(strs::digit_value(c) == n % 10);
    }
}

/// A count before a doubled operator: it works on that many lines from the
/// cursor's on, as far as the text has them.
pub proof fn law_counted_lines(s: EdV, op: char, n: int)
    requires
        typed::at_rest(s),
        op == 'd' || op == 'c' || op == 'y',
        0 <= s.line < s.line_count() < usize::MAX,
        0 < n <= usize::MAX - s.line,
    ensures
        ({
            let t = s.buf.text;
            let to = if s.line + n <= s.line_count() {
                s.line + n
            } else {
                s.line_count()
            };
            let a = lines::line_start(t, s.line);
            let b = lines::line_start(t, to);
            let d = strs::dec_of(n);
            let r = pressed(s, d, d.len() as int).normal_key(key(op)).0.normal_key(key(op)).0;
            &&& op == 'd' ==> r.buf.text == t.take(a) + t.skip(b)
            &&& op == 'c' ==> r.buf.text == t.take(a) + seq!['\n'] + t.skip(b)
            &&& op == 'y' ==> r.buf == s.buf
            &&& r.regs.slots.contains_key('"')
            &&& r.regs.slots['"'].kind is Linewise
        }),
{
    law_count_typed(s, n);
    let w = with_count(s, n);
    let p = EdV {
        pending: Pending {
            count1: Some(n as usize),
            operator: Some(op),
            ..state::no_pending()
        },
        ..w
    };
    let x = key(op);
    lemma_to_command(w, op);
    lemma_to_command(p, op);
    assert((EdV { status: None, ..w }) == w);
    assert((EdV { status: None, ..p }) == p);
    reveal(EdV::normal_command);
    reveal(EdV::bracket_keys);
    reveal(EdV::object_keys);
    reveal(EdV::escape_keys);
    reveal(EdV::count_keys);
    reveal(EdV::g_keys);
    reveal(EdV::op_keys);
    reveal(EdV::op_doubled);
    reveal_strlit("]");
    reveal_strlit("[");
    reveal_strlit("ESC");
    reveal_strlit("g");
    reveal_strlit("q");
    reveal_strlit("d");
    reveal_strlit("c");
    reveal_strlit("y");
    reveal_strlit(">");
    reveal_strlit("<");
    assert("]"@[0] == ']' && "]"@.len() == 1);
    assert("["@[0] == '[' && "["@.len() == 1);
    assert("ESC"@.len() == 3);
    assert("g"@[0] == 'g' && "g"@.len() == 1);
    assert("q"@[0] == 'q' && "q"@.len() == 1);
    assert("d"@[0] == 'd' && "d"@.len() == 1);
    assert("c"@[0] == 'c' && "c"@.len() == 1);
    assert("y"@[0] == 'y' && "y"@.len() == 1);
    assert(">"@[0] == '>' && ">"@.len() == 1);
    assert("<"@[0] == '<' && "<"@.len() == 1);
    assert(x.len() == 1 && x[0] == op);
    assert(strs::head(x) == Some(op));
    assert(op == 'd' ==> x =~= "d"@);
    assert(op == 'c' ==> x =~= "c"@);
    assert(op == 'y' ==> x =~= "y"@);
    assert(w.normal_key(x).0 == p);
    edits::law_lines_removed(p, op, s.line, n - 1);
}

/// `s` takes out the characters from the cursor on, as many as the count says or
/// the line has left, and goes on to insert.
pub proof fn law_change_chars(s: EdV, i: int, n: int)
    requires
        edits::stands_on(s, i),
        1 <= n,
    ensures
        ({
            let t = s.buf.text;
            let e = lines::line_start(t, s.line) + s.line_text(s.line).len();
            let j = if i + n <= e {
                i + n
            } else {
                e
            };
            let r = s.change_chars(n);
            &&& r.buf.text == t.take(i) + t.skip(j)
            &&& r.mode is Insert
            &&& r.regs.slots.contains_key('"')
            &&& r.regs.slots['"'].text == t.subrange(i, j)
        }),
{
    reveal(EdV::change_chars);
    let t = s.buf.text;
    let l = s.line_text(s.line);
    let st = lines::line_start(t, s.line);
    let e = st + l.len();
    let j = if i + n <= e {
        i + n
    } else {
        e
    };
    lines::lemma_line_raw(t, s.line);
    edits::lemma_stands_on(s, i);
    assert(text::off(l, j - st) == text::off(t, st + (j - st)) - lines::line_off(t, s.line));
    edits::law_range_removed(s, 'c', i, j);
    assert(s.op_charwise('c', text::off(t, i), text::off(t, j)).regs.slots.contains_key('"'));
}

/// `Y` puts the cursor's line into the register, whole, and leaves the text.
pub proof fn law_line_yanked(s: EdV)
    requires
        0 <= s.line < s.line_count(),
    ensures
        ({
            let t = s.buf.text;
            let taken = t.subrange(
                lines::line_start(t, s.line),
                lines::line_start(t, s.line + 1),
            );
            let r = s.yank_lines(s.line, s.line);
            &&& r.buf == s.buf
            &&& r.regs.slots.contains_key('"')
            &&& r.regs.slots['"'].kind is Linewise
            &&& r.regs.slots['"'].text == if taken.len() > 0 && taken.last() == '\n' {
                taken
            } else {
                taken.push('\n')
            }
        }),
{
    let t = s.buf.text;
    let a = lines::line_start(t, s.line);
    let b = lines::line_start(t, s.line + 1);
    lines::lemma_line_start(t, s.line);
    lines::lemma_line_start(t, s.line + 1);
    lines::lemma_line_start_mono(t, s.line, s.line + 1);
    selections::lemma_taken(s, a, b);
    reveal(EdV::yank_lines);
}

/// Pages lead that many lines down or up, as far as the text goes, and leave
/// the text.
pub proof fn law_pages(s: EdV, n: int)
    requires
        0 <= s.line < s.line_count() <= usize::MAX,
        0 <= n <= usize::MAX,
    ensures
        ({
            let d = s.page_down(n);
            let u = s.page_up(n);
            &&& d.line == if s.line + n < s.line_count() {
                s.line + n
            } else {
                s.line_count() - 1
            }
            &&& u.line == if s.line >= n {
                s.line - n
            } else {
                0
            }
            &&& d.buf == s.buf && u.buf == s.buf
        }),
{
    reveal(EdV::page_down);
    reveal(EdV::page_up);
}

/// `v` starts a selection with nothing but the character at the cursor, and `v`
/// again ends it with the cursor where it was.
pub proof fn law_selection_starts(s: EdV, i: int)
    requires
        typed::at_rest(s),
        !s.prefixes.visual_replace,
        0 <= i < s.buf.text.len(),
        s.cursor() == text::off(s.buf.text, i),
    ensures
        ({
            let v = s.normal_key(key('v')).0;
            let r = v.visual_key(key('v')).0;
            &&& selections::selects(v, i, i)
            &&& v.buf == s.buf
            &&& r.mode is Normal
            &&& r.line == s.line && r.col == s.col && r.buf == s.buf
            &&& s.normal_key(key('V')).0.mode is VisualLine
            &&& s.normal_key(key('V')).0.anchor_line == s.line
        }),
{
    lemma_visual_key(s, 'v');
    lemma_visual_key(s, 'V');
    let v = s.normal_key(key('v')).0;
    let x = key('v');
    reveal(EdV::visual_key);
    reveal(EdV::select_register);
    reveal(EdV::leader_keys);
    reveal(EdV::select_find);
    reveal(EdV::select_g);
    reveal(EdV::count_keys);
    reveal(EdV::select_mode);
    reveal_strlit("\\");
    reveal_strlit(" ");
    reveal_strlit("C-SPACE");
    reveal_strlit("f");
    reveal_strlit("F");
    reveal_strlit("t");
    reveal_strlit("T");
    reveal_strlit("g");
    reveal_strlit("ESC");
    reveal_strlit("C-[");
    reveal_strlit("v");
    reveal_strlit("V");
    reveal_strlit("C-V");
    assert("\\"@[0] == '\\' && "\\"@.len() == 1);
    assert(" "@[0] == ' ' && " "@.len() == 1);
    assert("C-SPACE"@.len() == 7);
    assert("f"@[0] == 'f' && "f"@.len() == 1);
    assert("F"@[0] == 'F' && "F"@.len() == 1);
    assert("t"@[0] == 't' && "t"@.len() == 1);
    assert("T"@[0] == 'T' && "T"@.len() == 1);
    assert("g"@[0] == 'g' && "g"@.len() == 1);
    assert("ESC"@.len() == 3);
    assert("C-["@.len() == 3);
    assert("v"@[0] == 'v' && "v"@.len() == 1);
    assert("V"@[0] == 'V' && "V"@.len() == 1);
    assert("C-V"@.len() == 3);
    assert(x.len() == 1 && x[0] == 'v');
    assert(strs::head(x) == Some('v'));
    assert(x =~= "v"@);
    assert(v.unquoted() == v);
}

proof fn lemma_visual_key(s: EdV, k: char)
    requires
        typed::at_rest(s),
        k == 'v' || k == 'V',
    ensures
        k == 'v' ==> s.normal_key(key(k)).0 == (EdV { status: None, ..s }).enter_visual(
            Mode::Visual,
        ),
        k == 'V' ==> s.normal_key(key(k)).0 == (EdV { status: None, ..s }).enter_visual(
            Mode::VisualLine,
        ),
{
    let x = key(k);
    lemma_to_command(s, k);
    reveal(EdV::normal_command);
    reveal(EdV::bracket_keys);
    reveal(EdV::object_keys);
    reveal(EdV::escape_keys);
    reveal(EdV::count_keys);
    reveal(EdV::g_keys);
    reveal(EdV::op_keys);
    reveal(EdV::prefix_keys);
    reveal_strlit("]");
    reveal_strlit("[");
    reveal_strlit("ESC");
    reveal_strlit("g");
    reveal_strlit("q");
    reveal_strlit("d");
    reveal_strlit("c");
    reveal_strlit("y");
    reveal_strlit(">");
    reveal_strlit("<");
    reveal_strlit("i");
    reveal_strlit("a");
    reveal_strlit("v");
    reveal_strlit("V");
    assert("]"@[0] == ']' && "]"@.len() == 1);
    assert("["@[0] == '[' && "["@.len() == 1);
    assert("ESC"@.len() == 3);
    assert("g"@[0] == 'g' && "g"@.len() == 1);
    assert("q"@[0] == 'q' && "q"@.len() == 1);
    assert("d"@[0] == 'd' && "d"@.len() == 1);
    assert("c"@[0] == 'c' && "c"@.len() == 1);
    assert("y"@[0] == 'y' && "y"@.len() == 1);
    assert(">"@[0] == '>' && ">"@.len() == 1);
    assert("<"@[0] == '<' && "<"@.len() == 1);
    assert("i"@[0] == 'i' && "i"@.len() == 1);
    assert("a"@[0] == 'a' && "a"@.len() == 1);
    assert("v"@[0] == 'v' && "v"@.len() == 1);
    assert("V"@[0] == 'V' && "V"@.len() == 1);
    assert(x.len() == 1 && x[0] == k);
    assert(strs::head(x) == Some(k));
    assert(k == 'v' ==> x =~= "v"@);
    assert(k == 'V' ==> x =~= "V"@);
}

proof fn lemma_word_key(s: EdV, k: char)
    requires
        k == 'b' || k == 'B' || k == 'e' || k == 'E' || k == 'W',
    ensures
        ({
            let t = s.buf.text;
            let c = s.cursor();
            &&& k == 'b' ==> s.motion(key(k), 1) == Some(motion::back_motion(t, c, false))
            &&& k == 'B' ==> s.motion(key(k), 1) == Some(motion::back_motion(t, c, true))
            &&& k == 'e' && s.pending.operator is None ==> s.motion(key(k), 1) == Some(
                motion::word_end_at(t, text::at(t, c)),
            )
            &&& k == 'E' && s.pending.operator is None ==> s.motion(key(k), 1) == Some(
                motion::big_word_end_at(t, text::at(t, c)),
            )
            &&& k == 'W' ==> s.motion(key(k), 1) == Some(
                text::off(t, motion::big_word_fwd(t, text::at(t, c))),
            )
        }),
{
    let x = key(k);
    let t = s.buf.text;
    let c = s.cursor();
    reveal(EdV::motion);
    reveal_strlit("h");
    reveal_strlit("l");
    reveal_strlit("LEFT");
    reveal_strlit("RIGHT");
    reveal_strlit("j");
    reveal_strlit("DOWN");
    reveal_strlit("k");
    reveal_strlit("UP");
    reveal_strlit("0");
    reveal_strlit("HOME");
    reveal_strlit("C-HOME");
    reveal_strlit("C-END");
    reveal_strlit("^");
    reveal_strlit("-");
    reveal_strlit("$");
    reveal_strlit("END");
    reveal_strlit("w");
    reveal_strlit("b");
    reveal_strlit("e");
    reveal_strlit("E");
    reveal_strlit("W");
    reveal_strlit("B");
    assert("h"@[0] == 'h' && "h"@.len() == 1);
    assert("l"@[0] == 'l' && "l"@.len() == 1);
    assert("LEFT"@.len() == 4);
    assert("RIGHT"@.len() == 5);
    assert("j"@[0] == 'j' && "j"@.len() == 1);
    assert("DOWN"@.len() == 4);
    assert("k"@[0] == 'k' && "k"@.len() == 1);
    assert("UP"@.len() == 2);
    assert("0"@[0] == '0' && "0"@.len() == 1);
    assert("HOME"@.len() == 4);
    assert("C-HOME"@.len() == 6);
    assert("C-END"@.len() == 5);
    assert("^"@[0] == '^' && "^"@.len() == 1);
    assert("-"@[0] == '-' && "-"@.len() == 1);
    assert("$"@[0] == '$' && "$"@.len() == 1);
    assert("END"@.len() == 3);
    assert("w"@[0] == 'w' && "w"@.len() == 1);
    assert("b"@[0] == 'b' && "b"@.len() == 1);
    assert("e"@[0] == 'e' && "e"@.len() == 1);
    assert("E"@[0] == 'E' && "E"@.len() == 1);
    assert("W"@[0] == 'W' && "W"@.len() == 1);
    assert("B"@[0] == 'B' && "B"@.len() == 1);
    assert(x.len() == 1 && x[0] == k);
    assert(k == 'b' ==> x =~= "b"@);
    assert(k == 'B' ==> x =~= "B"@);
    assert(k == 'e' ==> x =~= "e"@);
    assert(k == 'E' ==> x =~= "E"@);
    assert(k == 'W' ==> x =~= "W"@);
    motions::law_word_steps(t, c, WordMotion::Backward, 0, 1);
    motions::law_word_steps(t, c, WordMotion::BigBackward, 0, 1);
    motions::law_word_steps(t, c, WordMotion::End, 0, 1);
    motions::law_word_steps(t, c, WordMotion::BigEnd, 0, 1);
    motions::law_word_steps(t, c, WordMotion::BigForward, 0, 1);
}

/// `b` and `B` lead to the nearest start of a word before the cursor, to the
/// start of the text where there is none; the small one stops where the class of
/// characters changes, the big one only after white space.
pub proof fn law_back_keys(s: EdV, i: int, j: int, big: bool)
    requires
        0 <= j < i <= s.buf.text.len(),
        s.cursor() == text::off(s.buf.text, i),
        j == 0 || motion::starts_word(s.buf.text, j, big),
        forall|k: int| j < k < i ==> !#[trigger] motion::starts_word(s.buf.text, k, big),
    ensures
        s.motion(key(if big { 'B' } else { 'b' }), 1) == Some(text::off(s.buf.text, j)),
{
    let t = s.buf.text;
    lemma_word_key(s, if big { 'B' } else { 'b' });
    motion::law_to_previous_word(t, i, big);
    let r = choose|r: int|
        {
            &&& motion::back_motion(t, text::off(t, i), big) == #[trigger] text::off(t, r)
            &&& 0 <= r < i
            &&& r == 0 || motion::starts_word(t, r, big)
            &&& forall|k: int| r < k < i ==> !#[trigger] motion::starts_word(t, k, big)
        };
    if r < j {
        assert(motion::starts_word(t, j, big));
    } else if j < r {
        assert(motion::starts_word(t, r, big));
    }
}

/// `e` and `E` lead to the nearest end of a word after the cursor.
pub proof fn law_end_keys(s: EdV, i: int, j: int, big: bool)
    requires
        0 <= i < j < s.buf.text.len(),
        s.cursor() == text::off(s.buf.text, i),
        s.pending.operator is None,
        motion::ends_word(s.buf.text, j, big),
        forall|k: int| i < k < j ==> !#[trigger] motion::ends_word(s.buf.text, k, big),
    ensures
        s.motion(key(if big { 'E' } else { 'e' }), 1) == Some(text::off(s.buf.text, j)),
{
    let t = s.buf.text;
    lemma_word_key(s, if big { 'E' } else { 'e' });
    text::lemma_at_off(t, i);
    motion::law_to_word_end(t, i, big);
    let at = if big {
        motion::big_word_end_at(t, i)
    } else {
        motion::word_end_at(t, i)
    };
    let e = choose|e: int|
        {
            &&& at == #[trigger] text::off(t, e)
            &&& i <= e < t.len()
            &&& forall|k: int| i < k < e ==> !#[trigger] motion::ends_word(t, k, big)
            &&& (i < e && motion::ends_word(t, e, big)) || (e == t.len() - 1 && (i < e
                ==> !motion::ends_word(t, e, big)))
        };
    if e < j {
        assert(i < e ==> !motion::ends_word(t, e, big));
    } else if j < e {
        assert(motion::ends_word(t, j, big));
    }
}

proof fn lemma_typing_key(s: EdV, k: Seq<char>)
    requires
        !s.prefixes.insert_register,
        !s.options.autonumber,
        k == "BACK"@ || k == "DEL"@ || k == "C-T"@ || k == "C-D"@ || k == "C-Y"@ || k == "C-E"@,
    ensures
        k == "BACK"@ ==> s.insert_key(k).0 == s.backspace(),
        k == "DEL"@ ==> s.insert_key(k).0 == s.delete_char(),
        k == "C-T"@ ==> s.insert_key(k).0 == s.indent(),
        k == "C-D"@ ==> s.insert_key(k).0 == s.outdent(),
        k == "C-Y"@ ==> s.insert_key(k).0 == s.copy_char(false),
        k == "C-E"@ ==> s.insert_key(k).0 == s.copy_char(true),
{
    reveal(EdV::insert_key);
    reveal(EdV::typing_move);
    reveal(EdV::insert_move);
    reveal(EdV::insert_edit);
    reveal_strlit("BACK");
    reveal_strlit("DEL");
    reveal_strlit("C-T");
    reveal_strlit("C-D");
    reveal_strlit("C-Y");
    reveal_strlit("C-E");
    reveal_strlit("INS");
    reveal_strlit("C-R");
    reveal_strlit("ESC");
    reveal_strlit("C-[");
    reveal_strlit("C-C");
    reveal_strlit("LEFT");
    reveal_strlit("RIGHT");
    reveal_strlit("UP");
    reveal_strlit("DOWN");
    reveal_strlit("HOME");
    reveal_strlit("END");
    reveal_strlit("C-HOME");
    reveal_strlit("C-END");
    reveal_strlit("PgUP");
    reveal_strlit("PgDOWN");
    reveal_strlit("C-UP");
    reveal_strlit("C-DOWN");
    reveal_strlit("BACKSPACE");
    reveal_strlit("C-H");
    reveal_strlit("C-K");
    assert("DEL"@.len() == 3 && "DEL"@[0] == 'D' && "DEL"@[2] == 'L');
    assert("C-T"@.len() == 3 && "C-T"@[0] == 'C' && "C-T"@[2] == 'T');
    assert("C-D"@.len() == 3 && "C-D"@[0] == 'C' && "C-D"@[2] == 'D');
    assert("C-Y"@.len() == 3 && "C-Y"@[0] == 'C' && "C-Y"@[2] == 'Y');
    assert("C-E"@.len() == 3 && "C-E"@[0] == 'C' && "C-E"@[2] == 'E');
    assert("INS"@.len() == 3 && "INS"@[0] == 'I' && "INS"@[2] == 'S');
    assert("C-R"@.len() == 3 && "C-R"@[0] == 'C' && "C-R"@[2] == 'R');
    assert("ESC"@.len() == 3 && "ESC"@[0] == 'E' && "ESC"@[2] == 'C');
    assert("C-["@.len() == 3 && "C-["@[0] == 'C' && "C-["@[2] == '[');
    assert("C-C"@.len() == 3 && "C-C"@[0] == 'C' && "C-C"@[2] == 'C');
    assert("END"@.len() == 3 && "END"@[0] == 'E' && "END"@[2] == 'D');
    assert("C-H"@.len() == 3 && "C-H"@[0] == 'C' && "C-H"@[2] == 'H');
    assert("C-K"@.len() == 3 && "C-K"@[0] == 'C' && "C-K"@[2] == 'K');
    assert("BACK"@.len() == 4 && "BACK"@[0] == 'B');
    assert("LEFT"@.len() == 4 && "LEFT"@[0] == 'L');
    assert("RIGHT"@.len() == 5 && "RIGHT"@[0] == 'R');
    assert("UP"@.len() == 2 && "UP"@[0] == 'U');
    assert("DOWN"@.len() == 4 && "DOWN"@[0] == 'D');
    assert("HOME"@.len() == 4 && "HOME"@[0] == 'H');
    assert("C-HOME"@.len() == 6 && "C-HOME"@[0] == 'C');
    assert("C-END"@.len() == 5 && "C-END"@[0] == 'C');
    assert("PgUP"@.len() == 4 && "PgUP"@[0] == 'P');
    assert("PgDOWN"@.len() == 6 && "PgDOWN"@[0] == 'P');
    assert("C-UP"@.len() == 4 && "C-UP"@[0] == 'C');
    assert("C-DOWN"@.len() == 6 && "C-DOWN"@[0] == 'C');
    assert("BACKSPACE"@.len() == 9 && "BACKSPACE"@[0] == 'B');
}

/// While text is typed, with the cursor before the character `i`: BACK takes out
/// the character before it and DEL the one at it; Ctrl-T puts a tab at the head
/// of the line, and Ctrl-D takes one away there.
pub proof fn law_typing_keys(s: EdV, i: int)
    requires
        !s.prefixes.insert_register,
        !s.options.autonumber,
        0 <= s.line < s.line_count(),
        0 < i < s.buf.text.len(),
        s.cursor() == text::off(s.buf.text, i),
    ensures
        ({
            let t = s.buf.text;
            let l = s.line_text(s.line);
            let st = lines::line_start(t, s.line);
            &&& s.insert_key("BACK"@).0.buf.text == t.take(i - 1) + t.skip(i)
            &&& s.insert_key("DEL"@).0.buf.text == t.take(i) + t.skip(i + 1)
            &&& s.insert_key("C-T"@).0.buf.text == t.take(st) + seq!['\t'] + t.skip(st)
            &&& l.len() > 0 && l[0] == '\t' ==> s.insert_key("C-D"@).0.buf.text == t.take(st)
                + t.skip(st + 1)
        }),
{
    lemma_typing_key(s, "BACK"@);
    lemma_typing_key(s, "DEL"@);
    lemma_typing_key(s, "C-T"@);
    lemma_typing_key(s, "C-D"@);
    edits::law_backspace(s, i);
    edits::law_delete_char(s, i);
    edits::law_indented(s);
}

/// Ctrl-Y copies from the line above and Ctrl-E from the line below.
pub proof fn law_copy_keys(s: EdV)
    requires
        !s.prefixes.insert_register,
        !s.options.autonumber,
    ensures
        s.insert_key("C-Y"@).0 == s.copy_char(false),
        s.insert_key("C-E"@).0 == s.copy_char(true),
{
    lemma_typing_key(s, "C-Y"@);
    lemma_typing_key(s, "C-E"@);
}

/// `:s` replaces on the cursor's line and `:%s` in the whole text, by the
/// pattern, replacement and flags that follow; without the slashes that they
/// need the text stays.
pub proof fn law_substitute_commands(s: EdV, rest: Seq<char>)
    ensures
        ({
            let one = s.last_command("s/"@ + rest).0;
            let all = s.last_command("%s/"@ + rest).0;
            match substitute::subst_of(rest) {
                Some(x) => one == s.substitute(false, x) && all == s.substitute(true, x),
                None => one.buf == s.buf && all.buf == s.buf,
            }
        }),
{
    reveal(EdV::last_command);
    reveal(EdV::subst_command);
    reveal_strlit("s/");
    reveal_strlit("%s/");
    let a = "s/"@ + rest;
    let b = "%s/"@ + rest;
    assert(a.take(2) =~= "s/"@ && a.skip(2) =~= rest);
    assert(b.take(3) =~= "%s/"@ && b.skip(3) =~= rest);
    assert(b[0] == '%' && b.take(2)[0] == '%' && "s/"@[0] == 's');
}

proof fn lemma_undo_key(s: EdV)
    requires
        typed::at_rest(s),
    ensures
        s.normal_key(key('u')).0 == (EdV { status: None, ..s }).undo().clear_pending(),
{
    let q = EdV { status: None, ..s };
    let x = key('u');
    lemma_to_command(s, 'u');
    assert(state::count_of(q.pending) == 1);
    lemma_to_end(q, 'u');
    assert(q.motion(x, 1) is None) by {
        reveal(EdV::motion);
    reveal_strlit("h");
    reveal_strlit("l");
    reveal_strlit("LEFT");
    reveal_strlit("RIGHT");
    reveal_strlit("j");
    reveal_strlit("DOWN");
    reveal_strlit("k");
    reveal_strlit("UP");
    reveal_strlit("0");
    reveal_strlit("HOME");
    reveal_strlit("C-HOME");
    reveal_strlit("C-END");
    reveal_strlit("^");
    reveal_strlit("-");
    reveal_strlit("$");
    reveal_strlit("END");
    reveal_strlit("w");
    reveal_strlit("b");
    reveal_strlit("e");
    reveal_strlit("E");
    reveal_strlit("W");
    reveal_strlit("B");
    reveal_strlit("G");
    reveal_strlit("n");
    reveal_strlit("N");
    assert("h"@[0] == 'h' && "h"@.len() == 1);
    assert("l"@[0] == 'l' && "l"@.len() == 1);
    assert("LEFT"@.len() == 4);
    assert("RIGHT"@.len() == 5);
    assert("j"@[0] == 'j' && "j"@.len() == 1);
    assert("DOWN"@.len() == 4);
    assert("k"@[0] == 'k' && "k"@.len() == 1);
    assert("UP"@.len() == 2);
    assert("0"@[0] == '0' && "0"@.len() == 1);
    assert("HOME"@.len() == 4);
    assert("C-HOME"@.len() == 6);
    assert("C-END"@.len() == 5);
    assert("^"@[0] == '^' && "^"@.len() == 1);
    assert("-"@[0] == '-' && "-"@.len() == 1);
    assert("$"@[0] == '$' && "$"@.len() == 1);
    assert("END"@.len() == 3);
    assert("w"@[0] == 'w' && "w"@.len() == 1);
    assert("b"@[0] == 'b' && "b"@.len() == 1);
    assert("e"@[0] == 'e' && "e"@.len() == 1);
    assert("E"@[0] == 'E' && "E"@.len() == 1);
    assert("W"@[0] == 'W' && "W"@.len() == 1);
    assert("B"@[0] == 'B' && "B"@.len() == 1);
    assert("G"@[0] == 'G' && "G"@.len() == 1);
    assert("n"@[0] == 'n' && "n"@.len() == 1);
    assert("N"@[0] == 'N' && "N"@.len() == 1);
        assert(x.len() == 1 && x[0] == 'u');
    }
    lemma_no_page(q, 'u', 1);
    reveal(EdV::normal_action);
    reveal(EdV::enter_action);
    reveal(EdV::edit_action);
    reveal(EdV::other_action);
    reveal_strlit("i");
    reveal_strlit("a");
    reveal_strlit("I");
    reveal_strlit("A");
    reveal_strlit("o");
    reveal_strlit("O");
    reveal_strlit("R");
    reveal_strlit("s");
    reveal_strlit("S");
    reveal_strlit("C");
    reveal_strlit("x");
    reveal_strlit("X");
    reveal_strlit("D");
    reveal_strlit("Y");
    reveal_strlit("J");
    reveal_strlit("~");
    reveal_strlit("p");
    reveal_strlit("P");
    reveal_strlit("/");
    reveal_strlit("?");
    reveal_strlit("*");
    reveal_strlit("#");
    reveal_strlit("u");
    assert("i"@[0] == 'i' && "i"@.len() == 1);
    assert("a"@[0] == 'a' && "a"@.len() == 1);
    assert("I"@[0] == 'I' && "I"@.len() == 1);
    assert("A"@[0] == 'A' && "A"@.len() == 1);
    assert("o"@[0] == 'o' && "o"@.len() == 1);
    assert("O"@[0] == 'O' && "O"@.len() == 1);
    assert("R"@[0] == 'R' && "R"@.len() == 1);
    assert("s"@[0] == 's' && "s"@.len() == 1);
    assert("S"@[0] == 'S' && "S"@.len() == 1);
    assert("C"@[0] == 'C' && "C"@.len() == 1);
    assert("x"@[0] == 'x' && "x"@.len() == 1);
    assert("X"@[0] == 'X' && "X"@.len() == 1);
    assert("D"@[0] == 'D' && "D"@.len() == 1);
    assert("Y"@[0] == 'Y' && "Y"@.len() == 1);
    assert("J"@[0] == 'J' && "J"@.len() == 1);
    assert("~"@[0] == '~' && "~"@.len() == 1);
    assert("p"@[0] == 'p' && "p"@.len() == 1);
    assert("P"@[0] == 'P' && "P"@.len() == 1);
    assert("/"@[0] == '/' && "/"@.len() == 1);
    assert("?"@[0] == '?' && "?"@.len() == 1);
    assert("*"@[0] == '*' && "*"@.len() == 1);
    assert("#"@[0] == '#' && "#"@.len() == 1);
    assert("u"@[0] == 'u' && "u"@.len() == 1);
    assert(x.len() == 1 && x[0] == 'u');
    assert(x =~= "u"@);
}

/// `u` takes back what `x` did: the text is what it was.
pub proof fn law_undo_key(s: EdV, i: int)
    requires
        typed::at_rest(s),
        edits::stands_on(s, i),
        s.buf.wf(),
        s.buf.calm(),
    ensures
        s.normal_key(key('x')).0.normal_key(key('u')).0.buf.text == s.buf.text,
{
    let q = EdV { status: None, ..s };
    lemma_edit_key(s, 'x');
    lemma_edit_cases(q);
    assert(edits::stands_on(q, i));
    edits::lemma_stands_on(q, i);
    assert(q.cross_out().cross_out_times(0) == q.cross_out());
    let r = s.normal_key(key('x')).0;
    assert(r == q.cross_out().clear_pending());
    let e = q.edit(q.cursor(), q.after_char(), Seq::empty());
    assert(r.buf == e.buf && typed::at_rest(r)) by {
        reveal(EdV::cross_out);
    }
    lemma_undo_key(r);
    laws::law_undo_takes_an_edit_back(q, q.cursor(), q.after_char(), Seq::empty());
    reveal(EdV::undo);
}

proof fn lemma_z_key(s: EdV, k: char)
    requires
        typed::at_rest(s),
        k == 'o' || k == 'c' || k == 'R' || k == 'M',
    ensures
        ({
            let q = EdV { status: None, ..s };
            let r = s.normal_key(key('z')).0.normal_key(key(k)).0;
            &&& k == 'o' ==> r == (EdV { folds: s.folds.open(s.line), ..q })
            &&& k == 'c' ==> r == q.close_fold()
            &&& k == 'R' ==> r == q.unfold_all()
            &&& k == 'M' ==> r == q.fold_to(0)
        }),
{
    let z = key('z');
    let x = key(k);
    reveal(EdV::normal_key);
    reveal(EdV::register_keys);
    reveal(EdV::macro_keys);
    reveal(EdV::char_keys);
    reveal(EdV::mark_keys);
    reveal(EdV::z_keys);
    reveal(EdV::z_key);
    reveal(EdV::z_fold);
    reveal_strlit("C-Y");
    reveal_strlit("M");
    reveal_strlit("@");
    reveal_strlit("m");
    reveal_strlit("'");
    reveal_strlit("`");
    reveal_strlit("z");
    reveal_strlit("=");
    reveal_strlit("g");
    reveal_strlit("r");
    reveal_strlit("q");
    reveal_strlit("n");
    reveal_strlit("p");
    reveal_strlit("s");
    reveal_strlit("h");
    reveal_strlit("0");
    reveal_strlit("o");
    reveal_strlit("c");
    reveal_strlit("a");
    reveal_strlit("R");
    assert("C-Y"@.len() == 3);
    assert("M"@[0] == 'M' && "M"@.len() == 1);
    assert("@"@[0] == '@' && "@"@.len() == 1);
    assert("m"@[0] == 'm' && "m"@.len() == 1);
    assert("'"@[0] == '\'' && "'"@.len() == 1);
    assert("`"@[0] == '`' && "`"@.len() == 1);
    assert("z"@[0] == 'z' && "z"@.len() == 1);
    assert("="@[0] == '=' && "="@.len() == 1);
    assert("g"@[0] == 'g' && "g"@.len() == 1);
    assert("r"@[0] == 'r' && "r"@.len() == 1);
    assert("q"@[0] == 'q' && "q"@.len() == 1);
    assert("n"@[0] == 'n' && "n"@.len() == 1);
    assert("p"@[0] == 'p' && "p"@.len() == 1);
    assert("s"@[0] == 's' && "s"@.len() == 1);
    assert("h"@[0] == 'h' && "h"@.len() == 1);
    assert("0"@[0] == '0' && "0"@.len() == 1);
    assert("o"@[0] == 'o' && "o"@.len() == 1);
    assert("c"@[0] == 'c' && "c"@.len() == 1);
    assert("a"@[0] == 'a' && "a"@.len() == 1);
    assert("R"@[0] == 'R' && "R"@.len() == 1);
    assert(x.len() == 1 && x[0] == k);
    assert(z.len() == 1 && z[0] == 'z');
    assert(z =~= "z"@);
    assert(k == 'o' ==> x =~= "o"@);
    assert(k == 'c' ==> x =~= "c"@);
    assert(k == 'R' ==> x =~= "R"@);
    assert(k == 'M' ==> x =~= "M"@);
    let q = EdV { status: None, ..s };
    assert(q.unquoted() == q);
    let w = s.normal_key(z).0;
    assert(w == q.with_prefixes(Prefixes { z: true, ..q.prefixes }));
    assert(w.unquoted() == w);
    let y = w.with_prefixes(Prefixes { z: false, ..w.prefixes });
    assert(y == q);
}

/// `zR` shows every line; `zM` leaves the top items in sight and hides what is
/// below them; `zo` opens the fold that starts at the cursor and `zc` closes
/// it. None of them touches the text.
pub proof fn law_fold_keys(s: EdV, k: int)
    requires
        typed::at_rest(s),
        0 <= k < s.line_count(),
    ensures
        ({
            let ls = s.all_lines();
            let after = |c: char| s.normal_key(key('z')).0.normal_key(key(c)).0;
            &&& after('R').folds.visible(k, ls)
            &&& s.folds.explicit.len() == 0 && !chars::blank(ls[k]) && fold::level(ls[k]) == 0
                ==> after('M').folds.visible(k, ls)
            &&& s.folds.visible(k, ls) ==> after('o').folds.visible(k, ls)
            &&& !after('o').folds.closed.contains(s.line)
            &&& fold::foldable(ls, s.line) && s.line < k <= fold::end_of(ls, s.line) ==> !after(
                'c',
            ).folds.visible(k, ls)
            &&& after('R').buf == s.buf && after('M').buf == s.buf && after('o').buf == s.buf
        }),
{
    let ls = s.all_lines();
    lemma_z_key(s, 'R');
    lemma_z_key(s, 'M');
    lemma_z_key(s, 'o');
    lemma_z_key(s, 'c');
    let q = EdV { status: None, ..s };
    assert(q.all_lines() == ls);
    fold::law_unfolded(k, ls);
    if s.folds.explicit.len() == 0 && !chars::blank(ls[k]) {
        fold::law_folded_to_level(s.folds, 0, k, ls);
    }
    fold::law_one_fold(s.folds, s.line, k, ls);
    if fold::foldable(ls, s.line) && s.line < k <= fold::end_of(ls, s.line) {
        reveal(EdV::close_fold);
        let f = s.folds.close(s.line, ls);
        assert(f.closed.contains(s.line));
        assert(f.hides(s.line, k, ls));
    }
}

} // verus!
