//! What is shown: wrapping, rows, gutters and the lines around the text.

use scribe::buffer::{Buffer, FileKind};
use scribe::config::RcConfig;
use scribe::editor::paint::Body;
use scribe::editor::rows::{cursor_shape, gutter_cell, gutter_width};
use scribe::editor::state::Editor;
use scribe::mode::Mode;
use scribe::register::Registers;
use scribe::render::{
    expand_tabs_styled, plan_footer, underline_item, FooterPlan, FooterWidths,
};
use scribe::wrap::{visual_to_byte, wrap_pos, wrap_row_count, wrap_simulate};

fn chars(s: &str) -> Vec<char> {
    s.chars().collect()
}

fn editor(text: &str, cols: u16, rows: u16) -> Editor {
    Editor::new(
        Buffer::from_str(text, FileKind::Plain),
        cols,
        rows,
        RcConfig::empty(),
        None,
        Registers::new(),
        Vec::new(),
        "helper".into(),
    )
}

fn press(e: &mut Editor, keys: &[&str]) {
    for k in keys {
        e.handle_key(k);
        while e.next_key().is_some() {}
    }
}

#[test]
fn words_wrap_at_the_last_space() {
    let v = chars("hello big world");
    let rows = wrap_simulate(&v, &vec![], 10, 0, 8);
    let text: Vec<String> =
        rows.iter().map(|r| r.iter().map(|c| v[c.0]).collect::<String>()).collect();
    assert_eq!(text, vec!["hello big", "world"]);
    assert_eq!(wrap_row_count(&v, &vec![], 10, 0, 8), 2);
    assert_eq!(wrap_pos(&v, &vec![], 6, 10, 0, 8), (0, 6));
    assert_eq!(wrap_pos(&v, &vec![], 10, 10, 0, 8), (1, 0));
    // The dropped space shows at the head of the next row.
    assert_eq!(wrap_pos(&v, &vec![], 9, 10, 0, 8), (1, 0));
}

#[test]
fn a_long_word_breaks_where_the_row_is_full() {
    let v = chars("abcdefgh");
    assert_eq!(wrap_row_count(&v, &vec![], 3, 0, 8), 3);
    assert_eq!(wrap_pos(&v, &vec![], 4, 3, 0, 8), (1, 1));
    assert_eq!(wrap_pos(&v, &vec![], 8, 3, 0, 8), (3, 0));
}

#[test]
fn places_and_bytes_agree() {
    let v = chars("héllo big\tworld of words");
    let ws = vec![1; v.len()];
    let rows = wrap_simulate(&v, &ws, 11, 4, 8);
    for (r, row) in rows.iter().enumerate() {
        for &(i, c) in row {
            let b: usize = v[..i].iter().map(|c| c.len_utf8()).sum();
            assert_eq!(wrap_pos(&v, &ws, b, 11, 4, 8), (r, c));
            assert_eq!(visual_to_byte(&v, &ws, r, c, 11, 4, 8), b);
        }
    }
    assert_eq!(visual_to_byte(&v, &ws, 99, 0, 11, 4, 8), 25);
}

#[test]
fn wide_characters_take_their_cells() {
    let v = chars("a漢字b");
    let ws = vec![1, 2, 2, 1];
    assert_eq!(wrap_pos(&v, &ws, 7, 80, 0, 8), (0, 5));
    assert_eq!(wrap_row_count(&v, &ws, 3, 0, 8), 2);
    assert_eq!(wrap_pos(&v, &ws, 1, 0, 7, 8), (0, 7));
}

#[test]
fn the_gutter() {
    assert_eq!(gutter_width(9, false), 0);
    assert_eq!(gutter_width(9, true), 5);
    assert_eq!(gutter_width(1234, true), 7);
    assert_eq!(gutter_cell(4, 2, 100, false), "\x1b[38;5;240m  5 │ \x1b[39m");
    assert_eq!(gutter_cell(4, 2, 100, true), "\x1b[38;5;240m  2 │ \x1b[39m");
    assert_eq!(gutter_cell(2, 2, 9, true), "\x1b[38;5;240m 3 │ \x1b[39m");
}

#[test]
fn stepping_by_rows_stays_in_the_column() {
    let mut e = editor("aaaa bbbb cccc\nxy", 6, 24);
    let ws: Vec<Vec<usize>> = vec![];
    press(&mut e, &["i"]);
    e.start_at(None, Some(3), true);
    e.step_rows(&ws, true, 1);
    assert_eq!((e.cur_line, e.cur_col), (0, 7));
    e.step_rows(&ws, true, 1);
    assert_eq!((e.cur_line, e.cur_col), (0, 12));
    e.move_down(&ws);
    assert_eq!((e.cur_line, e.cur_col), (1, 2));
    e.move_down(&ws);
    assert_eq!((e.cur_line, e.cur_col), (1, 2));
    e.step_rows(&ws, false, 9);
    assert_eq!((e.cur_line, e.cur_col), (0, 2));
    assert_eq!(e.buf.text(), "aaaa bbbb cccc\nxy");
}

#[test]
fn scrolling_keeps_the_cursor_in_sight() {
    let text: String = (0..50).map(|i| format!("line {}\n", i)).collect();
    let mut e = editor(&text, 40, 12);
    let ws: Vec<Vec<usize>> = vec![];
    press(&mut e, &["G"]);
    e.scroll_to_cursor(&ws);
    let (row, col) = e.position_cursor(&ws);
    assert_eq!(row, 9);
    assert_eq!(col, 0);
    press(&mut e, &["g", "g"]);
    e.scroll_to_cursor(&ws);
    assert_eq!(e.scroll, 0);
    assert_eq!(e.position_cursor(&ws), (0, 0));
}

#[test]
fn rows_are_painted_with_folds() {
    let mut e = editor("a\n\tb\n\tc\nd", 40, 8);
    press(&mut e, &[" "]);
    e.execute_command("set nu");
    let rows = e.render_main();
    assert_eq!(rows.len(), 6);
    assert_eq!(rows[0].line, 0);
    assert_eq!(rows[0].folded, Some(2));
    assert_eq!(rows[1].line, 3);
    assert_eq!(rows[1].folded, None);
    assert!(rows[0].number.is_some());
    assert!(matches!(rows[2].body, Body::Filler));
}

#[test]
fn a_selection_is_painted_cell_by_cell() {
    let mut e = editor("abc", 10, 6);
    press(&mut e, &["l", "v"]);
    let rows = e.render_main();
    match &rows[0].body {
        Body::Cells(c) => {
            let lit: Vec<bool> = c.iter().map(|x| x.1).collect();
            assert_eq!(lit, vec![false, true, false]);
        }
        _ => panic!(),
    }
    press(&mut e, &["V"]);
    match &e.render_main()[0].body {
        Body::Cells(c) => {
            assert_eq!(c.len(), 4);
            assert_eq!(c[3], (" ".repeat(7), true));
        }
        _ => panic!(),
    }
}

#[test]
fn a_block_cuts_tabs() {
    let mut e = editor("a\tb\nxxxxx", 20, 6);
    press(&mut e, &["j", "l", "C-V", "l", "k"]);
    match &e.render_main()[0].body {
        Body::Cells(c) => {
            assert_eq!(c[0], ("a".to_string(), false));
            assert_eq!(c.len(), 9);
            assert!(c[1..8].iter().all(|x| x.0 == " "));
        }
        _ => panic!(),
    }
}

#[test]
fn header_and_footer() {
    let mut e = editor("one two\nthree", 60, 10);
    assert_eq!(e.render_header(), " [no name]  (2 lines)");
    e.insert_text_at_cursor("x");
    assert_eq!(e.render_header(), " [no name] *  (2 lines)");
    assert_eq!(e.stats_text(), " 3w  14c  ft:plain  spell:off ");
    assert_eq!(e.position_text(), " 1:2 ");
    press(&mut e, &["V", "j"]);
    assert_eq!(e.stats_text(), " sel: 2l 3w 14c ");
    let c = e.compute_selection_stats();
    assert_eq!((c.lines, c.words, c.chars), (2, 3, 14));
    assert_eq!(cursor_shape(Mode::Insert), 6);
    assert_eq!(cursor_shape(Mode::Replace), 4);
    assert_eq!(cursor_shape(Mode::Normal), 2);
}

#[test]
fn paragraphs() {
    let mut e = editor("a\nb\n\nc", 60, 10);
    assert_eq!(e.current_paragraph_bounds(), (0, 1));
    press(&mut e, &["G"]);
    assert_eq!(e.current_paragraph_bounds(), (3, 3));
}

#[test]
fn the_footer_gives_way() {
    let w = FooterWidths { mode: 8, middle: 10, stats: 20, pos: 6, right: 14 };
    assert_eq!(plan_footer(w, 80), FooterPlan::Full { gap: 22 });
    assert_eq!(plan_footer(w, 50), FooterPlan::NoStats { pad: 12 });
    assert_eq!(plan_footer(w, 30), FooterPlan::Bare { pad: 12 });
    assert_eq!(plan_footer(w, 10), FooterPlan::Bare { pad: 0 });
}

#[test]
fn tabs_expand_past_escapes() {
    assert_eq!(expand_tabs_styled("a\tb", 4), "a   b");
    assert_eq!(expand_tabs_styled("\x1b[31ma\t\x1b[0mb\n\tc", 4), "\x1b[31ma   \x1b[0mb\n    c");
    assert_eq!(expand_tabs_styled("\x1b]8;;http://x\x07a\tb", 4), "\x1b]8;;http://x\x07a   b");
    assert_eq!(expand_tabs_styled("no tabs \x1b[1m", 4), "no tabs \x1b[1m");
}

#[test]
fn states_and_transitions_are_underlined() {
    assert_eq!(underline_item("\tS: x", "\tS: x", 1), "\t\x1b[4mS: x\x1b[24m");
    assert_eq!(underline_item("\tS: x", "\tS: x", 2), "\tS: x");
    assert_eq!(underline_item("/ go", "\x1b[1m/ go", 2), "\x1b[4m\x1b[1m/ go\x1b[24m");
    assert_eq!(underline_item("| on", "| on", 0), "| on");
}

#[test]
fn reading_mode_centres_the_pane() {
    let mut e = editor("a", 100, 30);
    e.execute_command("set readingwidth=60");
    e.toggle_reading();
    assert_eq!((e.pane_x, e.pane_w, e.pane_h), (20, 60, 28));
    assert_eq!(e.render_header(), " ".repeat(100));
    e.toggle_reading();
    assert_eq!((e.pane_x, e.pane_w), (1, 100));
    e.handle_resize(50, 20);
    assert_eq!((e.pane_w, e.pane_h), (50, 18));
}
