//! Buffers, motions and the smaller parts.

use scribe::buffer::{detect_kind, Buffer, FileKind};
use scribe::cols::{byte_at_or_past_col, char_at_display_col, display_col, visual_width_of};
use scribe::dates::{days_in_month, is_leap, iso_date_match, jdn_to_ymd, ymd_to_jdn};
use scribe::editor::substitute::expand_replacement_escapes;
use scribe::keys::{is_jump_motion, key_to_literal_char, key_to_macro_text, parse_macro_text};
use scribe::layout::{
    fill_words, reformat_paragraphs, shift_left, shift_right, split_quote_prefix, wrap_to_width,
};
use scribe::marks::Marks;
use scribe::motion::{
    big_word_forward, classify, find_backward, find_forward, line_end, line_first_nonblank,
    line_last, line_start, word_backward, word_end, word_forward, CharClass,
};
use scribe::number::{format_number, parse_number_prefix, strip_number_prefix};
use scribe::register::{is_persistent, Registers, YankKind};
use scribe::search::{Direction, SearchState};
use scribe::textobj::{around_pair, around_word, inner_pair, inner_paragraph, inner_quote, inner_word};

fn buf(s: &str) -> Buffer {
    Buffer::from_str(s, FileKind::Plain)
}

#[test]
fn undo_is_a_tree() {
    let mut b = buf("a");
    b.apply(1, 1, "b");
    b.apply(2, 2, "c");
    assert_eq!(b.text(), "abc");
    assert_eq!(b.undo(), Some(2));
    b.apply(2, 2, "d");
    assert_eq!(b.text(), "abd");
    b.undo();
    assert_eq!(b.redo(), Some(3));
    assert_eq!(b.text(), "abd");
    b.undo();
    b.undo();
    assert_eq!(b.text(), "a");
    assert_eq!(b.undo(), None);
    b.redo();
    assert_eq!(b.text(), "ab");
}

#[test]
fn compounds_are_one_step() {
    let mut b = buf("hello");
    b.begin_compound();
    b.apply(0, 1, "J");
    b.apply(5, 5, "!");
    b.end_compound();
    assert_eq!(b.text(), "Jello!");
    b.undo();
    assert_eq!(b.text(), "hello");
    b.redo();
    assert_eq!(b.text(), "Jello!");
    b.begin_compound();
    b.end_compound();
    b.undo();
    assert_eq!(b.text(), "hello");
}

#[test]
fn lines_of_a_buffer() {
    let b = buf("one\ntwø\n");
    assert_eq!(b.line_count(), 3);
    assert_eq!(b.line(1), "twø");
    assert_eq!(b.line(2), "");
    assert_eq!(b.line(9), "");
    assert_eq!(b.line_byte_offset(1), 4);
    assert_eq!(b.byte_to_line_col(6), (1, 2));
}

#[test]
fn kinds_are_detected() {
    assert!(matches!(detect_kind("x.hl", "", Some("hl".into())), FileKind::Source(_)));
    assert!(matches!(detect_kind("m.eml", "", None), FileKind::Email));
    assert!(matches!(detect_kind("notes", "hello", None), FileKind::Plain | FileKind::Source(_)));
}

#[test]
fn word_motions() {
    let b = buf("foo.bar  baz\nqux");
    assert_eq!(word_forward(&b, 0), 3);
    assert_eq!(word_forward(&b, 3), 4);
    assert_eq!(big_word_forward(&b, 0), 9);
    assert_eq!(word_backward(&b, 9), 4);
    assert_eq!(word_end(&b, 0), 2);
    assert_eq!(line_start(&b, 11), 0);
    assert_eq!(line_end(&b, 3), 12);
    assert_eq!(line_first_nonblank(&buf("  x"), 0), 2);
    assert_eq!(find_forward(&b, 0, 'b'), Some(4));
    assert_eq!(find_forward(&b, 0, 'q'), None);
    assert_eq!(find_backward(&b, 11, 'o'), Some(2));
    assert_eq!(classify('é'), CharClass::Word);
    assert_eq!(classify('.'), CharClass::Punct);
}

#[test]
fn objects() {
    let b = buf("f(a, (b)) \"q x\" end");
    assert_eq!(inner_pair(&b, 6, '(', ')'), Some((6, 7)));
    assert_eq!(around_pair(&b, 3, '(', ')'), Some((1, 9)));
    assert_eq!(inner_quote(&b, 12, '"'), Some((11, 14)));
    assert_eq!(inner_word(&b, 17), Some((16, 19)));
    assert_eq!(around_word(&buf("one two"), 4), Some((3, 7)));
    assert_eq!(inner_pair(&b, 17, '(', ')'), None);
    assert_eq!(inner_paragraph(&buf("a\nb\n\nc"), 0), Some((0, 4)));
}

#[test]
fn registers_shadow_and_persist() {
    let mut r = Registers::new();
    r.yank(Some('a'), "one".into(), YankKind::Charwise);
    assert_eq!(r.get('a').unwrap().text, "one");
    assert_eq!(r.get('0').unwrap().text, "one");
    r.cut(None, "two".into(), YankKind::Linewise);
    assert_eq!(r.get('"').unwrap().text, "two");
    assert_eq!(r.get('0').unwrap().text, "one");
    assert!(is_persistent('a') && is_persistent('"') && !is_persistent('+'));
    let back = Registers::load(r.save());
    assert_eq!(back.get('a').unwrap().text, "one");
    assert_eq!(back.get('"').unwrap().kind, YankKind::Linewise);
    let mut m = Marks::new();
    m.set('x', 7);
    assert_eq!((m.get('x'), m.get('y')), (Some(7), None));
}

#[test]
fn searching() {
    let mut s = SearchState::new();
    s.set("b.r", Direction::Forward);
    assert_eq!(s.find("foo bar ber", 0, Direction::Forward), Some((4, 7)));
    assert_eq!(s.find("foo bar ber", 5, Direction::Forward), Some((8, 11)));
    assert_eq!(s.find("foo bar ber", 11, Direction::Backward), Some((8, 11)));
    assert_eq!(s.find("foo bar ber", 9, Direction::Backward), Some((4, 7)));
    assert_eq!(s.find("foo bar ber", 8, Direction::Backward), Some((4, 7)));
    s.set("(", Direction::Forward);
    assert_eq!(s.find("(", 0, Direction::Forward), None);
}

#[test]
fn macro_text() {
    assert_eq!(key_to_macro_text("ESC"), "<Esc>");
    assert_eq!(key_to_macro_text("<"), "<lt>");
    assert_eq!(parse_macro_text("a<Esc><C-R>ø<lt>"), vec!["a", "ESC", "C-R", "ø", "<"]);
    for k in ["ESC", "ENTER", "C-UP", "x", "PgDOWN", "<"] {
        assert_eq!(parse_macro_text(&key_to_macro_text(k)), vec![k]);
    }
    assert_eq!(key_to_literal_char("x"), Some('x'));
    assert!(is_jump_motion("G") && !is_jump_motion("l"));
}

#[test]
fn calendars() {
    assert!(is_leap(2024) && !is_leap(1900) && is_leap(2000));
    assert_eq!((days_in_month(2023, 2), days_in_month(2024, 2), days_in_month(2024, 12)), (28, 29, 31));
    assert_eq!(jdn_to_ymd(ymd_to_jdn(2024, 2, 29) as i128), (2024, 2, 29));
    assert_eq!(ymd_to_jdn(2000, 1, 1), 2451545);
    assert_eq!(iso_date_match("2023-12-31", 0, 1), Some("2024-01-01".to_string()));
    assert_eq!(iso_date_match("2023-13-31", 0, 1), None);
}

#[test]
fn numbers_of_items() {
    let n = parse_number_prefix("1.2.3. foo").unwrap();
    assert_eq!((n.path.as_str(), n.index, n.dot), ("1.2.", 3, true));
    let n = parse_number_prefix("5 foo").unwrap();
    assert_eq!((n.path.as_str(), n.index, n.dot), ("", 5, false));
    assert!(parse_number_prefix("foo").is_none());
    assert_eq!(strip_number_prefix("1.2 foo"), 4);
    assert_eq!(strip_number_prefix("foo"), 0);
    assert_eq!(format_number("1.", 2, true), "1.2.");
}

#[test]
fn layouts() {
    assert_eq!(wrap_to_width("one two three", 8), vec!["one two", "three"]);
    assert_eq!(split_quote_prefix("> > hi"), ("> > ".to_string(), "hi".to_string()));
    assert_eq!(reformat_paragraphs("a\nb\n\nc\n", 40), "a b\n\nc\n");
    assert_eq!(reformat_paragraphs("> a\n> b", 40), "> a b");
    assert_eq!(shift_right("x", &FileKind::Email), "> x");
    assert_eq!(shift_right("", &FileKind::Email), ">");
    assert_eq!(shift_left("> x", &FileKind::Email), "x");
    assert_eq!(shift_right("x", &FileKind::Plain), "\tx");
    assert_eq!(shift_left("     x", &FileKind::Plain), " x");
}

#[test]
fn columns() {
    assert_eq!(visual_width_of("a\tb", 8), 9);
    assert_eq!(display_col("a\tb", 2, 8), 8);
    assert_eq!(byte_at_or_past_col("a\tb", 4, 8), (1, 1));
    assert_eq!(byte_at_or_past_col("ab", 9, 8), (2, 2));
    assert_eq!(char_at_display_col("a\tb", 3, 8), Some(' '));
    assert_eq!(char_at_display_col("a\tb", 8, 8), Some('b'));
    assert_eq!(char_at_display_col("a", 5, 8), None);
}

#[test]
fn replacement_escapes() {
    assert_eq!(expand_replacement_escapes("a\\tb\\n\\\\\\x$1"), "a\tb\n\\\\x$1");
}

#[test]
fn filling_keeps_the_words() {
    let words: Vec<String> =
        ["a", "bb", "immeasurable", "c", "dd"].iter().map(|w| w.to_string()).collect();
    let lines = fill_words(&words, 6);
    assert_eq!(lines, vec!["a bb", "immeasurable", "c dd"]);
    assert_eq!(lines.join(" "), words.join(" "));
}

#[test]
fn word_end_is_a_character() {
    assert_eq!(word_end(&buf("å"), 0), 0);
    assert_eq!(word_end(&buf("xå"), 0), 1);
    assert_eq!(word_end(&buf("abc"), 0), 2);
    assert_eq!(line_last(&buf("aå\nb"), 0), 1);
    assert_eq!(line_last(&buf("\nb"), 0), 0);
}

#[test]
fn a_pair_is_found_from_its_opening() {
    let b = buf("(a (b) c)");
    assert_eq!(inner_pair(&b, 0, '(', ')'), Some((1, 8)));
    assert_eq!(inner_pair(&b, 3, '(', ')'), Some((4, 5)));
    assert_eq!(inner_pair(&b, 5, '(', ')'), Some((4, 5)));
    assert_eq!(around_pair(&b, 3, '(', ')'), Some((3, 6)));
}

#[test]
fn days_before_year_zero_count_on() {
    assert!(is_leap(-4) && is_leap(0) && !is_leap(-100) && is_leap(-400) && !is_leap(-3));
    assert_eq!(days_in_month(-4, 2), 29);
    assert_eq!(ymd_to_jdn(-4712, 11, 24) - ymd_to_jdn(-4712, 11, 23), 1);
    assert_eq!(ymd_to_jdn(-6000, 1, 1), 365 * -1201 - 300 + 12 - 3 - 32045 + 307);
    assert_eq!(jdn_to_ymd(ymd_to_jdn(-4799, 2, 28) as i128), (-4799, 2, 28));
}

#[test]
fn a_date_goes_there_and_back() {
    let l = "due 2024-01-31 x";
    let there = iso_date_match(l, 4, 40).unwrap();
    assert_eq!(there, "2024-03-11");
    assert_eq!(iso_date_match(&format!("due {} x", there), 4, -40).as_deref(), Some("2024-01-31"));
}

#[test]
fn columns_lead_back_to_characters() {
    let l = "a\tbå\tc";
    for (b, _) in l.char_indices() {
        let c = display_col(l, b, 8);
        assert_eq!(byte_at_or_past_col(l, c, 8), (b, c));
    }
    assert_eq!(byte_at_or_past_col(l, 5, 8), (1, 1));
    assert_eq!(byte_at_or_past_col(l, 99, 8).0, l.len());
}

#[test]
fn reformatting_twice_changes_nothing() {
    let t = "one two three four five six seven\n\n   \neight\nnine ten\n";
    let once = reformat_paragraphs(t, 20);
    assert_eq!(once, "one two three four\nfive six seven\n\n   \neight nine ten\n");
    assert_eq!(reformat_paragraphs(&once, 20), once);
    assert_eq!(reformat_paragraphs("", 20), "");
    assert_eq!(reformat_paragraphs("\n", 20), "\n");
}

#[test]
fn joined_steps_are_undone_at_once() {
    let mut b = buf("abc");
    b.apply(0, 1, "x");
    b.apply(1, 2, "y");
    b.join_step(0);
    assert_eq!(b.text(), "xyc");
    b.undo();
    assert_eq!(b.text(), "abc");
    b.redo();
    assert_eq!(b.text(), "xyc");
}
