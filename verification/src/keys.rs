//! Key names, and keys written as text.
//!
//! The input layer names keys (`h`, `ESC`, `C-UP`, `ENTER`). Macros and key
//! maps write them as text in vim's notation (`h`, `<Esc>`, `<C-Up>`, `<CR>`),
//! which can be pasted, edited and read back.

use vstd::prelude::*;
use vstd::string::*;
use crate::chars;
use crate::fold;
use crate::strs;
use crate::strs::{cat3, next_char, one};
use crate::text;
use crate::text::{chars_of, piece, same};

verus! {

/// Name between the brackets for a key that has one of its own.
pub open spec fn tag_of(k: Seq<char>) -> Option<Seq<char>> {
    if k == "ESC"@ {
        Some("Esc"@)
    } else if k == "ENTER"@ {
        Some("CR"@)
    } else if k == "BACKSPACE"@ {
        Some("BS"@)
    } else if k == "TAB"@ {
        Some("Tab"@)
    } else if k == "DEL"@ {
        Some("Del"@)
    } else if k == "INS"@ {
        Some("Ins"@)
    } else if k == "UP"@ {
        Some("Up"@)
    } else if k == "DOWN"@ {
        Some("Down"@)
    } else if k == "LEFT"@ {
        Some("Left"@)
    } else if k == "RIGHT"@ {
        Some("Right"@)
    } else if k == "HOME"@ {
        Some("Home"@)
    } else if k == "END"@ {
        Some("End"@)
    } else if k == "PgUP"@ {
        Some("PageUp"@)
    } else if k == "PgDOWN"@ {
        Some("PageDown"@)
    } else if k == "C-UP"@ {
        Some("C-Up"@)
    } else if k == "C-DOWN"@ {
        Some("C-Down"@)
    } else if k == "C-LEFT"@ {
        Some("C-Left"@)
    } else if k == "C-RIGHT"@ {
        Some("C-Right"@)
    } else if k == "S-UP"@ {
        Some("S-Up"@)
    } else if k == "S-DOWN"@ {
        Some("S-Down"@)
    } else if k == "S-LEFT"@ {
        Some("S-Left"@)
    } else if k == "S-RIGHT"@ {
        Some("S-Right"@)
    } else if k == "C-HOME"@ {
        Some("C-Home"@)
    } else if k == "C-END"@ {
        Some("C-End"@)
    } else if k == "C-PgUP"@ {
        Some("C-PageUp"@)
    } else if k == "C-PgDOWN"@ {
        Some("C-PageDown"@)
    } else if k == "C-DEL"@ {
        Some("C-Del"@)
    } else if k == "C-INS"@ {
        Some("C-Ins"@)
    } else if k == "C-SPACE"@ {
        Some("C-Space"@)
    } else {
        None
    }
}

/// Key that a name between brackets stands for, where it is not the key's
/// own name.
pub open spec fn key_of(k: Seq<char>) -> Option<Seq<char>> {
    if k == "Esc"@ {
        Some("ESC"@)
    } else if k == "CR"@ || k == "Enter"@ || k == "Return"@ {
        Some("ENTER"@)
    } else if k == "BS"@ {
        Some("BACKSPACE"@)
    } else if k == "Tab"@ {
        Some("TAB"@)
    } else if k == "Del"@ {
        Some("DEL"@)
    } else if k == "Ins"@ {
        Some("INS"@)
    } else if k == "Up"@ {
        Some("UP"@)
    } else if k == "Down"@ {
        Some("DOWN"@)
    } else if k == "Left"@ {
        Some("LEFT"@)
    } else if k == "Right"@ {
        Some("RIGHT"@)
    } else if k == "Home"@ {
        Some("HOME"@)
    } else if k == "End"@ {
        Some("END"@)
    } else if k == "PageUp"@ {
        Some("PgUP"@)
    } else if k == "PageDown"@ {
        Some("PgDOWN"@)
    } else if k == "C-Up"@ {
        Some("C-UP"@)
    } else if k == "C-Down"@ {
        Some("C-DOWN"@)
    } else if k == "C-Left"@ {
        Some("C-LEFT"@)
    } else if k == "C-Right"@ {
        Some("C-RIGHT"@)
    } else if k == "S-Up"@ {
        Some("S-UP"@)
    } else if k == "S-Down"@ {
        Some("S-DOWN"@)
    } else if k == "S-Left"@ {
        Some("S-LEFT"@)
    } else if k == "S-Right"@ {
        Some("S-RIGHT"@)
    } else if k == "C-Home"@ {
        Some("C-HOME"@)
    } else if k == "C-End"@ {
        Some("C-END"@)
    } else if k == "C-PageUp"@ {
        Some("C-PgUP"@)
    } else if k == "C-PageDown"@ {
        Some("C-PgDOWN"@)
    } else if k == "C-Del"@ {
        Some("C-DEL"@)
    } else if k == "C-Ins"@ {
        Some("C-INS"@)
    } else if k == "C-Space"@ {
        Some("C-SPACE"@)
    } else if k == "lt"@ {
        Some("<"@)
    } else {
        None
    }
}

pub open spec fn bracketed(s: Seq<char>) -> Seq<char> {
    "<"@ + s + ">"@
}

/// A key as text.
pub open spec fn encoded(k: Seq<char>) -> Seq<char> {
    match tag_of(k) {
        Some(t) => bracketed(t),
        None => if k.len() == 1 && k[0] != '<' {
            k
        } else if k.len() == 1 {
            "<lt>"@
        } else {
            bracketed(k)
        },
    }
}

/// The keys that a text stands for, from index `i` on: a name in brackets, or
/// else a single character.
pub open spec fn decoded(t: Seq<char>, i: int) -> Seq<Seq<char>>
    decreases t.len() - i,
{
    if i < 0 || i >= t.len() {
        Seq::empty()
    } else {
        let j = text::skip_fwd(t, i + 1, strs::other_than('>'));
        if t[i] == '<' && i < j < t.len() {
            let name = t.subrange(i + 1, j);
            let key = match key_of(name) {
                Some(k) => k,
                None => name,
            };
            seq![key] + decoded(t, j + 1)
        } else {
            seq![seq![t[i]]] + decoded(t, i + 1)
        }
    }
}

/// The one character that a key stands for, if it stands for one.
pub open spec fn literal(k: Seq<char>) -> Option<char> {
    if k == " "@ || k == "SPACE"@ {
        Some(' ')
    } else if k == "TAB"@ || k == "S-TAB"@ {
        Some('\t')
    } else if k == "ENTER"@ || k == "\n"@ || k == "\r"@ || k == "C-M"@ || k == "C-J"@ {
        Some('\n')
    } else if k.len() == 1 && !chars::is_ctrl(k[0]) {
        Some(k[0])
    } else {
        None
    }
}

/// Motions that leave a mark behind to come back to.
pub open spec fn jumps(k: Seq<char>) -> bool {
    k == "G"@ || k == "gg"@ || k == "n"@ || k == "N"@ || k == "{"@ || k == "}"@ || k == "("@ || k
        == ")"@ || k == "%"@ || k == "H"@ || k == "M"@ || k == "L"@ || k == "[["@ || k == "]]"@
}

fn tag(k: &str) -> (r: Option<&'static str>)
    ensures
        (match r {
            Some(s) => Some(s@),
            None => None,
        }) == tag_of(k@),
{
    if same(k, "ESC") {
        Some("Esc")
    } else if same(k, "ENTER") {
        Some("CR")
    } else if same(k, "BACKSPACE") {
        Some("BS")
    } else if same(k, "TAB") {
        Some("Tab")
    } else if same(k, "DEL") {
        Some("Del")
    } else if same(k, "INS") {
        Some("Ins")
    } else if same(k, "UP") {
        Some("Up")
    } else if same(k, "DOWN") {
        Some("Down")
    } else if same(k, "LEFT") {
        Some("Left")
    } else if same(k, "RIGHT") {
        Some("Right")
    } else if same(k, "HOME") {
        Some("Home")
    } else if same(k, "END") {
        Some("End")
    } else if same(k, "PgUP") {
        Some("PageUp")
    } else if same(k, "PgDOWN") {
        Some("PageDown")
    } else if same(k, "C-UP") {
        Some("C-Up")
    } else if same(k, "C-DOWN") {
        Some("C-Down")
    } else if same(k, "C-LEFT") {
        Some("C-Left")
    } else if same(k, "C-RIGHT") {
        Some("C-Right")
    } else if same(k, "S-UP") {
        Some("S-Up")
    } else if same(k, "S-DOWN") {
        Some("S-Down")
    } else if same(k, "S-LEFT") {
        Some("S-Left")
    } else if same(k, "S-RIGHT") {
        Some("S-Right")
    } else if same(k, "C-HOME") {
        Some("C-Home")
    } else if same(k, "C-END") {
        Some("C-End")
    } else if same(k, "C-PgUP") {
        Some("C-PageUp")
    } else if same(k, "C-PgDOWN") {
        Some("C-PageDown")
    } else if same(k, "C-DEL") {
        Some("C-Del")
    } else if same(k, "C-INS") {
        Some("C-Ins")
    } else if same(k, "C-SPACE") {
        Some("C-Space")
    } else {
        None
    }
}

fn untag(k: &str) -> (r: Option<&'static str>)
    ensures
        (match r {
            Some(s) => Some(s@),
            None => None,
        }) == key_of(k@),
{
    if same(k, "Esc") {
        Some("ESC")
    } else if same(k, "CR") || same(k, "Enter") || same(k, "Return") {
        Some("ENTER")
    } else if same(k, "BS") {
        Some("BACKSPACE")
    } else if same(k, "Tab") {
        Some("TAB")
    } else if same(k, "Del") {
        Some("DEL")
    } else if same(k, "Ins") {
        Some("INS")
    } else if same(k, "Up") {
        Some("UP")
    } else if same(k, "Down") {
        Some("DOWN")
    } else if same(k, "Left") {
        Some("LEFT")
    } else if same(k, "Right") {
        Some("RIGHT")
    } else if same(k, "Home") {
        Some("HOME")
    } else if same(k, "End") {
        Some("END")
    } else if same(k, "PageUp") {
        Some("PgUP")
    } else if same(k, "PageDown") {
        Some("PgDOWN")
    } else if same(k, "C-Up") {
        Some("C-UP")
    } else if same(k, "C-Down") {
        Some("C-DOWN")
    } else if same(k, "C-Left") {
        Some("C-LEFT")
    } else if same(k, "C-Right") {
        Some("C-RIGHT")
    } else if same(k, "S-Up") {
        Some("S-UP")
    } else if same(k, "S-Down") {
        Some("S-DOWN")
    } else if same(k, "S-Left") {
        Some("S-LEFT")
    } else if same(k, "S-Right") {
        Some("S-RIGHT")
    } else if same(k, "C-Home") {
        Some("C-HOME")
    } else if same(k, "C-End") {
        Some("C-END")
    } else if same(k, "C-PageUp") {
        Some("C-PgUP")
    } else if same(k, "C-PageDown") {
        Some("C-PgDOWN")
    } else if same(k, "C-Del") {
        Some("C-DEL")
    } else if same(k, "C-Ins") {
        Some("C-INS")
    } else if same(k, "C-Space") {
        Some("C-SPACE")
    } else if same(k, "lt") {
        Some("<")
    } else {
        None
    }
}

/// A key as text.
pub fn key_to_macro_text(key: &str) -> (s: String)
    ensures
        s@ == encoded(key@),
{
    if let Some(t) = tag(key) {
        return cat3("<", t, ">");
    }
    let v: Vec<char> = chars_of(key);
    if v.len() == 1 {
        if v[0] == '<' {
            "<lt>".to_owned()
        } else {
            key.to_owned()
        }
    } else {
        cat3("<", key, ">")
    }
}

/// The keys that a text stands for.
pub fn parse_macro_text(text: &str) -> (out: Vec<String>)
    ensures
        fold::views(out@) == decoded(text@, 0),
{
    let v: Vec<char> = chars_of(text);
    let mut out: Vec<String> = Vec::new();
    let mut i: usize = 0;
    assert(fold::views(out@) + decoded(text@, 0) =~= decoded(text@, 0));
    while i < v.len()
        invariant
            i <= v.len(),
            v@ == text@,
            fold::views(out@) + decoded(text@, i as int) == decoded(text@, 0),
        decreases v.len() - i,
    {
        let ghost before = fold::views(out@);
        let j: usize = next_char(&v, '>', i + 1);
        if v[i] == '<' && j < v.len() {
            let name: String = piece(&v, i + 1, j);
            let key: String = match untag(&name) {
                Some(k) => k.to_owned(),
                None => name,
            };
            proof {
                strs::lemma_views_push(out@, key);
            }
            out.push(key);
            assert(before + decoded(text@, i as int) =~= fold::views(out@) + decoded(
                text@,
                j + 1,
            ));
            i = j + 1;
        } else {
            let key: String = one(v[i]);
            proof {
                strs::lemma_views_push(out@, key);
            }
            out.push(key);
            assert(before + decoded(text@, i as int) =~= fold::views(out@) + decoded(
                text@,
                i + 1,
            ));
            i = i + 1;
        }
    }
    assert(fold::views(out@) + decoded(text@, i as int) =~= fold::views(out@));
    out
}

/// The one character that a key stands for: Tab, Enter and Space have words
/// for names, and keys such as the arrows stand for none.
pub fn key_to_literal_char(key: &str) -> (r: Option<char>)
    ensures
        r == literal(key@),
{
    if same(key, " ") || same(key, "SPACE") {
        Some(' ')
    } else if same(key, "TAB") || same(key, "S-TAB") {
        Some('\t')
    } else if same(key, "ENTER") || same(key, "\n") || same(key, "\r") || same(key, "C-M") || same(
        key,
        "C-J",
    ) {
        Some('\n')
    } else {
        let v: Vec<char> = chars_of(key);
        if v.len() == 1 && !v[0].is_control() {
            Some(v[0])
        } else {
            None
        }
    }
}

/// Whether a motion leaves a mark behind.
pub fn is_jump_motion(key: &str) -> (r: bool)
    ensures
        r == jumps(key@),
{
    same(key, "G") || same(key, "gg") || same(key, "n") || same(key, "N") || same(key, "{") || same(
        key,
        "}",
    ) || same(key, "(") || same(key, ")") || same(key, "%") || same(key, "H") || same(key, "M")
        || same(key, "L") || same(key, "[[") || same(key, "]]")
}

/// A key whose text can be read back: it holds no `>` unless it is that
/// character, and is not spelt like the text name of another key.
pub open spec fn plain_key(k: Seq<char>) -> bool {
    &&& k.len() > 0
    &&& k.len() == 1 || !k.contains('>')
    &&& tag_of(k) is None && k.len() > 1 ==> key_of(k) is None
}

/// How the names in brackets are spelt.
proof fn lemma_names()
    ensures
        "Esc"@.len() == 3,
        "Esc"@[0] == 'E',
        "Esc"@[1] == 's',
        "Esc"@[2] == 'c',
        "CR"@.len() == 2,
        "CR"@[0] == 'C',
        "CR"@[1] == 'R',
        "BS"@.len() == 2,
        "BS"@[0] == 'B',
        "BS"@[1] == 'S',
        "Tab"@.len() == 3,
        "Tab"@[0] == 'T',
        "Tab"@[1] == 'a',
        "Tab"@[2] == 'b',
        "Del"@.len() == 3,
        "Del"@[0] == 'D',
        "Del"@[1] == 'e',
        "Del"@[2] == 'l',
        "Ins"@.len() == 3,
        "Ins"@[0] == 'I',
        "Ins"@[1] == 'n',
        "Ins"@[2] == 's',
        "Up"@.len() == 2,
        "Up"@[0] == 'U',
        "Up"@[1] == 'p',
        "Down"@.len() == 4,
        "Down"@[0] == 'D',
        "Down"@[1] == 'o',
        "Down"@[2] == 'w',
        "Down"@[3] == 'n',
        "Left"@.len() == 4,
        "Left"@[0] == 'L',
        "Left"@[1] == 'e',
        "Left"@[2] == 'f',
        "Left"@[3] == 't',
        "Right"@.len() == 5,
        "Right"@[0] == 'R',
        "Right"@[1] == 'i',
        "Right"@[2] == 'g',
        "Right"@[3] == 'h',
        "Right"@[4] == 't',
        "Home"@.len() == 4,
        "Home"@[0] == 'H',
        "Home"@[1] == 'o',
        "Home"@[2] == 'm',
        "Home"@[3] == 'e',
        "End"@.len() == 3,
        "End"@[0] == 'E',
        "End"@[1] == 'n',
        "End"@[2] == 'd',
        "PageUp"@.len() == 6,
        "PageUp"@[0] == 'P',
        "PageUp"@[1] == 'a',
        "PageUp"@[2] == 'g',
        "PageUp"@[3] == 'e',
        "PageUp"@[4] == 'U',
        "PageUp"@[5] == 'p',
        "PageDown"@.len() == 8,
        "PageDown"@[0] == 'P',
        "PageDown"@[1] == 'a',
        "PageDown"@[2] == 'g',
        "PageDown"@[3] == 'e',
        "PageDown"@[4] == 'D',
        "PageDown"@[5] == 'o',
        "PageDown"@[6] == 'w',
        "PageDown"@[7] == 'n',
        "C-Up"@.len() == 4,
        "C-Up"@[0] == 'C',
        "C-Up"@[1] == '-',
        "C-Up"@[2] == 'U',
        "C-Up"@[3] == 'p',
        "C-Down"@.len() == 6,
        "C-Down"@[0] == 'C',
        "C-Down"@[1] == '-',
        "C-Down"@[2] == 'D',
        "C-Down"@[3] == 'o',
        "C-Down"@[4] == 'w',
        "C-Down"@[5] == 'n',
        "C-Left"@.len() == 6,
        "C-Left"@[0] == 'C',
        "C-Left"@[1] == '-',
        "C-Left"@[2] == 'L',
        "C-Left"@[3] == 'e',
        "C-Left"@[4] == 'f',
        "C-Left"@[5] == 't',
        "C-Right"@.len() == 7,
        "C-Right"@[0] == 'C',
        "C-Right"@[1] == '-',
        "C-Right"@[2] == 'R',
        "C-Right"@[3] == 'i',
        "C-Right"@[4] == 'g',
        "C-Right"@[5] == 'h',
        "C-Right"@[6] == 't',
        "S-Up"@.len() == 4,
        "S-Up"@[0] == 'S',
        "S-Up"@[1] == '-',
        "S-Up"@[2] == 'U',
        "S-Up"@[3] == 'p',
        "S-Down"@.len() == 6,
        "S-Down"@[0] == 'S',
        "S-Down"@[1] == '-',
        "S-Down"@[2] == 'D',
        "S-Down"@[3] == 'o',
        "S-Down"@[4] == 'w',
        "S-Down"@[5] == 'n',
        "S-Left"@.len() == 6,
        "S-Left"@[0] == 'S',
        "S-Left"@[1] == '-',
        "S-Left"@[2] == 'L',
        "S-Left"@[3] == 'e',
        "S-Left"@[4] == 'f',
        "S-Left"@[5] == 't',
        "S-Right"@.len() == 7,
        "S-Right"@[0] == 'S',
        "S-Right"@[1] == '-',
        "S-Right"@[2] == 'R',
        "S-Right"@[3] == 'i',
        "S-Right"@[4] == 'g',
        "S-Right"@[5] == 'h',
        "S-Right"@[6] == 't',
        "C-Home"@.len() == 6,
        "C-Home"@[0] == 'C',
        "C-Home"@[1] == '-',
        "C-Home"@[2] == 'H',
        "C-Home"@[3] == 'o',
        "C-Home"@[4] == 'm',
        "C-Home"@[5] == 'e',
        "C-End"@.len() == 5,
        "C-End"@[0] == 'C',
        "C-End"@[1] == '-',
        "C-End"@[2] == 'E',
        "C-End"@[3] == 'n',
        "C-End"@[4] == 'd',
        "C-PageUp"@.len() == 8,
        "C-PageUp"@[0] == 'C',
        "C-PageUp"@[1] == '-',
        "C-PageUp"@[2] == 'P',
        "C-PageUp"@[3] == 'a',
        "C-PageUp"@[4] == 'g',
        "C-PageUp"@[5] == 'e',
        "C-PageUp"@[6] == 'U',
        "C-PageUp"@[7] == 'p',
        "C-PageDown"@.len() == 10,
        "C-PageDown"@[0] == 'C',
        "C-PageDown"@[1] == '-',
        "C-PageDown"@[2] == 'P',
        "C-PageDown"@[3] == 'a',
        "C-PageDown"@[4] == 'g',
        "C-PageDown"@[5] == 'e',
        "C-PageDown"@[6] == 'D',
        "C-PageDown"@[7] == 'o',
        "C-PageDown"@[8] == 'w',
        "C-PageDown"@[9] == 'n',
        "C-Del"@.len() == 5,
        "C-Del"@[0] == 'C',
        "C-Del"@[1] == '-',
        "C-Del"@[2] == 'D',
        "C-Del"@[3] == 'e',
        "C-Del"@[4] == 'l',
        "C-Ins"@.len() == 5,
        "C-Ins"@[0] == 'C',
        "C-Ins"@[1] == '-',
        "C-Ins"@[2] == 'I',
        "C-Ins"@[3] == 'n',
        "C-Ins"@[4] == 's',
        "C-Space"@.len() == 7,
        "C-Space"@[0] == 'C',
        "C-Space"@[1] == '-',
        "C-Space"@[2] == 'S',
        "C-Space"@[3] == 'p',
        "C-Space"@[4] == 'a',
        "C-Space"@[5] == 'c',
        "C-Space"@[6] == 'e',
        "Enter"@.len() == 5,
        "Enter"@[0] == 'E',
        "Enter"@[1] == 'n',
        "Enter"@[2] == 't',
        "Enter"@[3] == 'e',
        "Enter"@[4] == 'r',
        "Return"@.len() == 6,
        "Return"@[0] == 'R',
        "Return"@[1] == 'e',
        "Return"@[2] == 't',
        "Return"@[3] == 'u',
        "Return"@[4] == 'r',
        "Return"@[5] == 'n',
        "lt"@.len() == 2,
        "lt"@[0] == 'l',
        "lt"@[1] == 't',
{
    reveal_strlit("Esc");
    reveal_strlit("CR");
    reveal_strlit("BS");
    reveal_strlit("Tab");
    reveal_strlit("Del");
    reveal_strlit("Ins");
    reveal_strlit("Up");
    reveal_strlit("Down");
    reveal_strlit("Left");
    reveal_strlit("Right");
    reveal_strlit("Home");
    reveal_strlit("End");
    reveal_strlit("PageUp");
    reveal_strlit("PageDown");
    reveal_strlit("C-Up");
    reveal_strlit("C-Down");
    reveal_strlit("C-Left");
    reveal_strlit("C-Right");
    reveal_strlit("S-Up");
    reveal_strlit("S-Down");
    reveal_strlit("S-Left");
    reveal_strlit("S-Right");
    reveal_strlit("C-Home");
    reveal_strlit("C-End");
    reveal_strlit("C-PageUp");
    reveal_strlit("C-PageDown");
    reveal_strlit("C-Del");
    reveal_strlit("C-Ins");
    reveal_strlit("C-Space");
    reveal_strlit("Enter");
    reveal_strlit("Return");
    reveal_strlit("lt");
}

proof fn lemma_tag_round_trip(k: Seq<char>)
    requires
        tag_of(k) is Some,
    ensures
        key_of(tag_of(k)->0) == Some(k),
        !tag_of(k)->0.contains('>'),
        tag_of(k)->0.len() > 1,
{
    lemma_names();
}

proof fn lemma_decoded_shift(a: Seq<char>, b: Seq<char>, i: int)
    requires
        0 <= i <= b.len(),
    ensures
        decoded(a + b, a.len() + i) == decoded(b, i),
    decreases b.len() - i,
{
    if i < b.len() {
        let t = a + b;
        let n = a.len() as int;
        lemma_skip_shift(a, b, i + 1, strs::other_than('>'));
        text::lemma_skip_fwd(b, i + 1, strs::other_than('>'));
        let j = text::skip_fwd(b, i + 1, strs::other_than('>'));
        assert(t[n + i] == b[i]);
        if b[i] == '<' && j < b.len() {
            assert(t.subrange(n + i + 1, n + j) =~= b.subrange(i + 1, j));
            lemma_decoded_shift(a, b, j + 1);
        } else {
            lemma_decoded_shift(a, b, i + 1);
        }
    }
}

proof fn lemma_skip_shift(a: Seq<char>, b: Seq<char>, i: int, p: spec_fn(char) -> bool)
    requires
        0 <= i <= b.len(),
    ensures
        text::skip_fwd(a + b, a.len() + i, p) == a.len() + text::skip_fwd(b, i, p),
    decreases b.len() - i,
{
    if i < b.len() && p(b[i]) {
        assert((a + b)[a.len() + i] == b[i]);
        lemma_skip_shift(a, b, i + 1, p);
    }
}

/// First `>` of a name in brackets is the closing one.
proof fn lemma_close(name: Seq<char>, rest: Seq<char>)
    requires
        !name.contains('>'),
    ensures
        text::skip_fwd(bracketed(name) + rest, 1, strs::other_than('>')) == name.len() + 1,
{
    reveal_strlit("<");
    reveal_strlit(">");
    let t = bracketed(name) + rest;
    let p = strs::other_than('>');
    text::lemma_skip_fwd(t, 1, p);
    let j = text::skip_fwd(t, 1, p);
    assert(t[name.len() as int + 1] == '>');
    if j > name.len() + 1 {
        assert(p(t[name.len() as int + 1]));
    } else if j < name.len() + 1 {
        assert(t[j] == name[j - 1]);
        assert(name.contains(name[j - 1]));
    }
}

/// What is recorded is what is played: the text of a key, whatever text
/// follows it, is read back as that key and then the rest.
pub proof fn law_macro_text_reads_back(k: Seq<char>, rest: Seq<char>)
    requires
        plain_key(k),
    ensures
        decoded(encoded(k) + rest, 0) == seq![k] + decoded(rest, 0),
{
    reveal_strlit("<");
    reveal_strlit(">");
    reveal_strlit("<lt>");
    reveal_strlit("lt");
    let t = encoded(k) + rest;
    let e = encoded(k);
    lemma_decoded_shift(e, rest, 0);
    if tag_of(k) is Some {
        lemma_tag_round_trip(k);
        let name = tag_of(k)->0;
        lemma_close(name, rest);
        assert(t.subrange(1, name.len() as int + 1) =~= name);
        assert(t[0] == '<');
    } else if k.len() == 1 && k[0] != '<' {
        assert(t[0] == k[0]);
        assert(seq![t[0]] =~= k);
    } else if k.len() == 1 {
        assert(e =~= bracketed("lt"@));
        assert(!"lt"@.contains('>'));
        lemma_close("lt"@, rest);
        assert(t.subrange(1, 3) =~= "lt"@);
        lemma_lt();
        assert(k =~= "<"@);
    } else {
        lemma_close(k, rest);
        assert(t.subrange(1, k.len() as int + 1) =~= k);
        assert(t[0] == '<');
    }
}

proof fn lemma_lt()
    ensures
        key_of("lt"@) == Some("<"@),
{
    lemma_names();
}

/// The text of a run of keys.
pub open spec fn encoded_all(ks: Seq<Seq<char>>) -> Seq<char>
    decreases ks.len(),
{
    if ks.len() == 0 {
        Seq::empty()
    } else {
        encoded(ks[0]) + encoded_all(ks.drop_first())
    }
}

/// A whole recording is read back key by key.
pub proof fn law_macro_round_trip(ks: Seq<Seq<char>>)
    requires
        forall|i: int| 0 <= i < ks.len() ==> plain_key(#[trigger] ks[i]),
    ensures
        decoded(encoded_all(ks), 0) == ks,
    decreases ks.len(),
{
    if ks.len() > 0 {
        law_macro_text_reads_back(ks[0], encoded_all(ks.drop_first()));
        assert forall|i: int| 0 <= i < ks.drop_first().len() implies plain_key(
            #[trigger] ks.drop_first()[i],
        ) by {
            assert(ks.drop_first()[i] == ks[i + 1]);
        }
        law_macro_round_trip(ks.drop_first());
        assert(seq![ks[0]] + ks.drop_first() =~= ks);
    }
}

} // verus!
