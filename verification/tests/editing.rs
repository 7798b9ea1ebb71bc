//! Keys typed into the editor.

use scribe::buffer::{Buffer, FileKind};
use scribe::config::RcConfig;
use scribe::editor::state::{Action, Editor, ShellCommand};
use scribe::mode::Mode;
use scribe::register::{Registers, YankKind};

fn editor_of(text: &str, kind: FileKind) -> Editor {
    Editor::new(
        Buffer::from_str(text, kind),
        80,
        24,
        RcConfig::empty(),
        None,
        Registers::new(),
        Vec::new(),
        "helper".into(),
    )
}

fn editor(text: &str) -> Editor {
    editor_of(text, FileKind::Plain)
}

/// Types keys, plays what they feed, and returns the last action that asks
/// for something.
fn press(e: &mut Editor, keys: &[&str]) -> Action {
    let mut last = Action::Nothing;
    for k in keys {
        let a = e.handle_key(k);
        if !matches!(a, Action::Nothing) {
            last = a;
        }
        while let Some(a) = e.next_key() {
            if !matches!(a, Action::Nothing) {
                last = a;
            }
        }
    }
    last
}

fn typed(e: &mut Editor, s: &str) {
    for c in s.chars() {
        press(e, &[&c.to_string()]);
    }
}

fn status(e: &Editor) -> String {
    e.message()
}

#[test]
fn x_deletes_and_u_brings_back() {
    let mut e = editor("héllo");
    press(&mut e, &["l", "x"]);
    assert_eq!(e.buf.text(), "hllo");
    press(&mut e, &["u"]);
    assert_eq!(e.buf.text(), "héllo");
    press(&mut e, &["C-R"]);
    assert_eq!(e.buf.text(), "hllo");
}

#[test]
fn undo_past_the_oldest_change_says_so() {
    let mut e = editor("a");
    press(&mut e, &["u"]);
    assert_eq!(status(&e), " already at oldest change");
    press(&mut e, &["C-R"]);
    assert_eq!(status(&e), " already at newest change");
}

#[test]
fn counts_multiply() {
    let mut e = editor("a b c d e f g h");
    press(&mut e, &["2", "d", "3", "w"]);
    assert_eq!(e.buf.text(), "g h");
}

#[test]
fn dd_and_p_swap_lines() {
    let mut e = editor("one\ntwo\nthree\n");
    press(&mut e, &["d", "d", "p"]);
    assert_eq!(e.buf.text(), "two\none\nthree\n");
    assert_eq!(e.cur_line, 1);
}

#[test]
fn yank_goes_to_register_zero_and_delete_does_not() {
    let mut e = editor("one\ntwo\n");
    press(&mut e, &["y", "y", "j", "d", "d"]);
    let zero = e.regs.get('0').unwrap();
    assert_eq!(zero.text, "one\n");
    assert_eq!(zero.kind, YankKind::Linewise);
    assert_eq!(e.regs.get('"').unwrap().text, "two\n");
    assert_eq!(e.buf.text(), "one\n");
}

#[test]
fn a_yank_leaves_the_text_alone() {
    let mut e = editor("one two");
    press(&mut e, &["v", "e", "y"]);
    assert_eq!(e.buf.text(), "one two");
    assert_eq!(e.regs.get('"').unwrap().text, "one");
    assert_eq!(status(&e), " 3 chars yanked");
}

#[test]
fn change_word_and_dot() {
    let mut e = editor("foo bar foo");
    press(&mut e, &["c", "w"]);
    typed(&mut e, "x");
    press(&mut e, &["ESC"]);
    assert_eq!(e.mode, Mode::Normal);
    let once = e.buf.text();
    assert!(once.starts_with('x'));
    press(&mut e, &["w", "."]);
    assert!(e.buf.text().contains("x"));
    assert_ne!(e.buf.text(), once);
}

#[test]
fn text_objects() {
    let mut e = editor("call(one, two) end");
    press(&mut e, &["f", "o", "d", "i", "("]);
    assert_eq!(e.buf.text(), "call() end");
    let mut e = editor("say \"hello there\" now");
    press(&mut e, &["f", "t", "d", "i", "\""]);
    assert_eq!(e.buf.text(), "say \"\" now");
    let mut e = editor("one two three");
    press(&mut e, &["w", "d", "a", "w"]);
    assert_eq!(e.buf.text(), "one three");
}

#[test]
fn replace_join_and_case() {
    let mut e = editor("abc\n  def");
    press(&mut e, &["r", "X"]);
    assert_eq!(e.buf.text(), "Xbc\n  def");
    press(&mut e, &["J"]);
    assert_eq!(e.buf.text(), "Xbc def");
    press(&mut e, &["0", "~"]);
    assert_eq!(e.buf.text(), "xbc def");
}

#[test]
fn increments_numbers_and_dates() {
    let mut e = editor("v 41");
    press(&mut e, &["C-A"]);
    assert_eq!(e.buf.text(), "v 42");
    press(&mut e, &["4", "4", "C-X"]);
    assert_eq!(e.buf.text(), "v -2");
    let mut e = editor("2024-02-28 x");
    press(&mut e, &["2", "C-A"]);
    assert_eq!(e.buf.text(), "2024-03-01 x");
}

#[test]
fn the_first_number_or_date_counts() {
    let mut e = editor("take 5 on 2024-02-28");
    press(&mut e, &["C-A"]);
    assert_eq!(e.buf.text(), "take 6 on 2024-02-28");
    press(&mut e, &["w", "C-A"]);
    assert_eq!(e.buf.text(), "take 6 on 2024-02-29");
    let mut e = editor("due <-2024-02-28 or 7");
    press(&mut e, &["C-A"]);
    assert_eq!(e.buf.text(), "due <-2024-02-29 or 7");
}

#[test]
fn lines_move_up_and_down() {
    let mut e = editor("a\nb\nc");
    press(&mut e, &["C-DOWN"]);
    assert_eq!(e.buf.text(), "b\na\nc");
    assert_eq!(e.cur_line, 1);
    press(&mut e, &["C-DOWN"]);
    assert_eq!(e.buf.text(), "b\nc\na");
    press(&mut e, &["C-UP", "C-UP"]);
    assert_eq!(e.buf.text(), "a\nb\nc");
    assert_eq!(e.cur_line, 0);
}

#[test]
fn insert_mode_types_breaks_and_deletes() {
    let mut e = editor("");
    press(&mut e, &["i"]);
    typed(&mut e, "ab");
    press(&mut e, &["ENTER"]);
    typed(&mut e, "ç");
    press(&mut e, &["BACK"]);
    typed(&mut e, "d");
    press(&mut e, &["ESC"]);
    assert_eq!(e.buf.text(), "ab\nd");
    assert_eq!((e.cur_line, e.cur_col), (1, 0));
}

#[test]
fn append_goes_past_the_whole_character() {
    let mut e = editor("é");
    press(&mut e, &["a"]);
    typed(&mut e, "x");
    assert_eq!(e.buf.text(), "éx");
}

#[test]
fn replace_mode_overtypes() {
    let mut e = editor("abcd");
    press(&mut e, &["R"]);
    typed(&mut e, "xy");
    press(&mut e, &["ESC"]);
    assert_eq!(e.buf.text(), "xycd");
}

#[test]
fn abbreviations_expand_at_a_boundary() {
    let mut e = editor("");
    e.set_abbrev("mvh", "Med vennlig hilsen");
    press(&mut e, &["i"]);
    typed(&mut e, "mvh,");
    assert_eq!(e.buf.text(), "Med vennlig hilsen,");
}

#[test]
fn block_change_reaches_every_line() {
    let mut e = editor("aa\nbb\ncc");
    press(&mut e, &["C-V", "j", "j", "c"]);
    typed(&mut e, "-+");
    press(&mut e, &["ESC"]);
    assert_eq!(e.buf.text(), "-+a\n-+b\n-+c");
}

#[test]
fn block_delete_and_paste() {
    let mut e = editor("abc\nabc");
    press(&mut e, &["l", "C-V", "j", "d"]);
    assert_eq!(e.buf.text(), "ac\nac");
    assert_eq!(e.regs.get('"').unwrap().kind, YankKind::Block);
    press(&mut e, &["u"]);
    assert_eq!(e.buf.text(), "abc\nabc");
}

#[test]
fn marks_and_jumps() {
    let mut e = editor("one\n  two\nthree");
    press(&mut e, &["j", "l", "m", "a", "G"]);
    assert_eq!(e.cur_line, 2);
    press(&mut e, &["`", "a"]);
    assert_eq!((e.cur_line, e.cur_col), (1, 1));
    press(&mut e, &["G", "'", "a"]);
    assert_eq!((e.cur_line, e.cur_col), (1, 2));
}

#[test]
fn macros_record_and_play() {
    let mut e = editor("1\n2\n3\n");
    press(&mut e, &["M", "q", "A", "!", "ESC", "j", "M"]);
    assert_eq!(e.regs.get('q').unwrap().text, "A!<Esc>j");
    press(&mut e, &["@", "q", "@", "@"]);
    assert_eq!(e.buf.text(), "1!\n2!\n3!\n");
}

#[test]
fn search_wraps_and_repeats() {
    let mut e = editor("foo bar\nfoo baz");
    e.search_submit("ba.", scribe::search::Direction::Forward);
    assert_eq!((e.cur_line, e.cur_col), (0, 4));
    press(&mut e, &["n"]);
    assert_eq!((e.cur_line, e.cur_col), (1, 4));
    press(&mut e, &["n"]);
    assert_eq!((e.cur_line, e.cur_col), (0, 4));
    press(&mut e, &["0", "*"]);
    assert_eq!((e.cur_line, e.cur_col), (1, 0));
}

#[test]
fn folds_hide_lines_from_motions() {
    let mut e = editor_of("a\n\tb\n\tc\nd", FileKind::Source("hl".into()));
    press(&mut e, &[" ", "j"]);
    assert_eq!(e.cur_line, 3);
    press(&mut e, &["\\", "a", "g", "g", "j"]);
    assert_eq!(e.cur_line, 1);
}

#[test]
fn checkbox_goes_round() {
    let mut e = editor_of("\titem", FileKind::Source("hl".into()));
    press(&mut e, &["\\", "v"]);
    assert_eq!(e.buf.text(), "\t[_] item");
    press(&mut e, &["\\", "v"]);
    assert_eq!(e.buf.text(), "\t[x] item");
    press(&mut e, &["\\", "v"]);
    assert_eq!(e.buf.text(), "\t[_] item");
    e.toggle_checkbox(Some("2024-01-02 03.04"));
    assert_eq!(e.buf.text(), "\t[x] 2024-01-02 03.04: item");
    e.toggle_checkbox(None);
    assert_eq!(e.buf.text(), "\t[_] item");
    press(&mut e, &["\\", "o"]);
    assert_eq!(e.buf.text(), "\t[O] item");
    e.toggle_checkbox(Some("2024-01-02 03.04"));
    assert_eq!(e.buf.text(), "\t[x] 2024-01-02 03.04: item");
}

#[test]
fn sorting_loses_no_line() {
    let mut e = editor("\tb\n\ta\nx\n\t\tdeep\n\ta2\nlast\n");
    press(&mut e, &["V", "j", "j", "j", "j", "\\", "s"]);
    assert_eq!(e.buf.text(), "\ta\nx\n\t\tdeep\n\ta2\n\tb\nlast\n");
    press(&mut e, &["ESC", "u"]);
    assert_eq!(e.buf.text(), "\tb\n\ta\nx\n\t\tdeep\n\ta2\nlast\n");
    let mut f = editor("b\na");
    press(&mut f, &["V", "j", "\\", "s"]);
    assert_eq!(f.buf.text(), "b\na");
}

#[test]
fn renumbering_keeps_the_space() {
    let mut e = editor_of("3 a\n7 b\n\tc\nd\n", FileKind::Source("hl".into()));
    press(&mut e, &["V", "j", "j", "j", "\\", "R"]);
    assert_eq!(e.buf.text(), "3 a\n4 b\n\tc\n5 d\n");
    press(&mut e, &["ESC", "u"]);
    assert_eq!(e.buf.text(), "3 a\n7 b\n\tc\nd\n");
}

#[test]
fn a_minus_sign_is_part_of_the_number() {
    let mut e = editor("-5");
    press(&mut e, &["l", "C-A"]);
    assert_eq!(e.buf.text(), "-4");
    press(&mut e, &["."]);
    assert_eq!(e.buf.text(), "-3");
    let mut f = editor("a-5");
    press(&mut f, &["l", "l", "C-A"]);
    assert_eq!(f.buf.text(), "a-6");
    let mut g = editor("2024-02-28 x");
    press(&mut g, &["C-A", ".", "C-X", "C-X"]);
    assert_eq!(g.buf.text(), "2024-02-28 x");
}

#[test]
fn the_line_end_is_its_last_character() {
    let mut e = editor("aå\n\nb");
    press(&mut e, &["$"]);
    assert_eq!((e.cur_line, e.cur_col), (0, 1));
    press(&mut e, &["j", "$"]);
    assert_eq!((e.cur_line, e.cur_col), (1, 0));
}

#[test]
fn any_letter_names_a_register() {
    let mut e = editor("one\ntwo\n");
    press(&mut e, &["\"", "m", "y", "y", "j", "\"", "z", "y", "y"]);
    press(&mut e, &["\"", "m", "p"]);
    assert_eq!(e.buf.text(), "one\ntwo\none\n");
    press(&mut e, &["g", "g", "V", "\"", "d", "y", "\"", "d", "P"]);
    assert_eq!(e.buf.text(), "one\none\ntwo\none\n");
}

#[test]
fn clearing_a_filter_shows_all() {
    let mut e = editor_of("foo\nbar\nbar\nfoo\n", FileKind::Source("hl".into()));
    press(&mut e, &["z", "s", "j", "j"]);
    assert_eq!(e.cur_line, 3);
    press(&mut e, &["z", "0", "g", "g", "j", "j"]);
    assert_eq!(e.cur_line, 2);
    press(&mut e, &["g", "g", "z", "s", "\\", "a", "j", "j"]);
    assert_eq!(e.cur_line, 2);
}

#[test]
fn folds_by_command() {
    let mut e = editor_of("a\n\tb\n\t\tc\nd\n", FileKind::Source("hl".into()));
    e.execute_command("fold-all");
    press(&mut e, &["j"]);
    assert_eq!(e.cur_line, 3);
    e.execute_command("fold-open");
    press(&mut e, &["g", "g", "j"]);
    assert_eq!(e.cur_line, 1);
}

#[test]
fn folds_stay_with_their_lines() {
    let mut e = editor_of("x\na\n\tb\nc\n", FileKind::Source("hl".into()));
    press(&mut e, &["j", " "]);
    assert!(e.folds.is_closed(1));
    press(&mut e, &["g", "g", "o", "n", "e", "w", "ESC"]);
    assert_eq!(e.buf.text(), "x\nnew\na\n\tb\nc\n");
    assert!(e.folds.is_closed(2) && !e.folds.is_closed(1));
    press(&mut e, &["g", "g", "O", "t", "o", "p", "ESC"]);
    assert!(e.folds.is_closed(3) && e.folds.count() == 1);
    press(&mut e, &["g", "g", "d", "d", "d", "d"]);
    assert_eq!(e.buf.text(), "new\na\n\tb\nc\n");
    assert!(e.folds.is_closed(1) && e.folds.count() == 1);
    press(&mut e, &["u"]);
    assert!(e.folds.is_closed(2) && e.folds.count() == 1);
    press(&mut e, &["C-R"]);
    assert!(e.folds.is_closed(1) && e.folds.count() == 1);
}

#[test]
fn one_undo_takes_a_replace_turn_back() {
    let mut e = editor("abcdef\n");
    press(&mut e, &["R", "X", "Y", "ENTER", "Z", "BACK", "DEL", "ESC"]);
    assert_eq!(e.buf.text(), "XY\ndef\n");
    press(&mut e, &["u"]);
    assert_eq!(e.buf.text(), "abcdef\n");
    press(&mut e, &["C-R"]);
    assert_eq!(e.buf.text(), "XY\ndef\n");
    press(&mut e, &["g", "g", "R", "1", "ESC", "R", "2", "ESC", "u"]);
    assert!(e.buf.text().contains('1') && !e.buf.text().contains('2'));
}

#[test]
fn a_long_line_breaks_within_the_width() {
    let mut e = editor("");
    e.execute_command("set tw=10");
    press(&mut e, &["i", "a", "a", "a", "a", " ", "b", "b", "b", "b", "b", "b", " "]);
    assert_eq!(e.buf.text(), "aaaa\nbbbbbb ");
    assert_eq!((e.cur_line, e.cur_col), (1, 7));
}

#[test]
fn path_references_lead_through_the_parents() {
    let mut e = editor_of(
        "One\n\tChild\n\t\tLeaf\nTwo\n\tChild\n\t\tLeaf\n<Two/Child/Leaf>\n<None/Leaf>\n",
        FileKind::Source("hl".into()),
    );
    press(&mut e, &["6", "j", "\\", "r"]);
    assert_eq!(e.cur_line, 5);
    press(&mut e, &["j", "j", "\\", "r"]);
    assert_eq!(e.cur_line, 7);
    assert_eq!(e.status, Some((" reference not found: <None/Leaf>".into(), 196)));
}

#[test]
fn a_spelling_word_needs_a_word_character() {
    let mut e = editor("ab cd");
    assert_eq!(e.word_at_cursor().as_deref(), Some("ab"));
    press(&mut e, &["l", "l"]);
    assert_eq!(e.word_at_cursor(), None);
}

#[test]
fn selections_sort_by_item() {
    let mut e = editor("c\n\t1\na\nb\n");
    press(&mut e, &["V", "j", "j", "j", "\\", "s"]);
    assert_eq!(e.buf.text(), "a\nb\nc\n\t1\n");
}

#[test]
fn key_maps_run() {
    let mut rc = RcConfig::empty();
    rc.keymaps.push(scribe::editor::state::KeyMap {
        mode: "normal".into(),
        lhs: vec!["z".into(), "x".into()],
        rhs: "ddp".into(),
    });
    let mut e = Editor::new(
        Buffer::from_str("1\n2\n", FileKind::Plain),
        80,
        24,
        rc,
        None,
        Registers::new(),
        Vec::new(),
        "helper".into(),
    );
    press(&mut e, &["z", "x"]);
    assert_eq!(e.buf.text(), "2\n1\n");
}

#[test]
fn quitting_keeps_unsaved_changes() {
    let mut e = editor("ab");
    assert!(matches!(press(&mut e, &["z", "z"]), Action::SaveQuit));
    press(&mut e, &["x"]);
    let a = e.execute_command("q");
    assert!(matches!(a, Action::Nothing));
    assert_eq!(status(&e), " unsaved changes (use :q! to force)");
    assert!(matches!(e.execute_command("q!"), Action::Quit));
}

#[test]
fn pasted_text_is_one_step() {
    let mut e = editor("ab");
    press(&mut e, &["i"]);
    e.handle_paste("one\r\ntwo\rthree");
    assert_eq!(e.buf.text(), "one\ntwo\nthreeab");
    press(&mut e, &["ESC", "u"]);
    assert_eq!(e.buf.text(), "ab");
}

#[test]
fn substitution_is_one_step() {
    let mut e = editor("foo\nfoo foo\nbar");
    e.execute_command("%s/foo/x/g");
    assert_eq!(e.buf.text(), "x\nx x\nbar");
    assert_eq!(status(&e), " 3 substitution(s) on buffer");
    e.undo();
    assert_eq!(e.buf.text(), "foo\nfoo foo\nbar");
}

#[test]
fn substitution_errors() {
    let mut e = editor("foo");
    e.execute_command("s/bar/x/");
    assert_eq!(status(&e), " pattern not found: bar");
    e.execute_command("s/(/x/");
    assert!(status(&e).starts_with(" bad pattern: "));
    e.execute_command("s/(o)/<$1>/");
    assert_eq!(e.buf.text(), "f<o>o");
    e.execute_command("s/F/g/i");
    assert_eq!(e.buf.text(), "g<o>o");
}

#[test]
fn commands_ask_the_shell() {
    let mut e = editor("a");
    assert!(matches!(
        e.execute_command("w out.txt"),
        Action::Shell(ShellCommand::SaveAs, ref p) if p == "out.txt"
    ));
    assert!(matches!(e.execute_command("w"), Action::Save));
    assert!(matches!(e.execute_command("wq"), Action::SaveQuit));
    assert!(matches!(
        e.execute_command("e other"),
        Action::Shell(ShellCommand::EditFile, ref p) if p == "other"
    ));
    assert!(matches!(e.execute_command("keys"), Action::Shell(ShellCommand::Keys, _)));
    e.execute_command("set nu");
    assert!(e.options.numbers);
    e.execute_command("nosuchthing");
    assert!(status(&e).contains("nosuchthing"));
}

#[test]
fn a_file_read_goes_below_the_line() {
    let mut e = editor("one\ntwo");
    e.read_file_into_buffer("x.txt", "a\nb");
    assert_eq!(e.buf.text(), "one\na\nb\ntwo");
    assert_eq!(e.cur_line, 1);
    e.undo();
    assert_eq!(e.buf.text(), "one\ntwo");
}

#[test]
fn spelling_suggestions_are_taken() {
    let mut e = editor("helo world");
    e.spell_enable(true);
    e.spell_found(vec![scribe::spell::MisspellRange {
        start: 0,
        end: 4,
        word: "helo".into(),
        suggestions: vec!["hello".into(), "halo".into()],
    }]);
    assert!(matches!(press(&mut e, &["z", "="]), Action::AskSuggestion));
    assert_eq!(status(&e), " 'helo' → 1:hello 2:halo");
    e.take_suggestion("2");
    assert_eq!(e.buf.text(), "halo world");
    assert_eq!(status(&e), " → halo");
}

#[test]
fn a_box_toggled_twice_is_as_before() {
    let mut e = editor_of("\tx\n\t[_] task\n\t[x] done", FileKind::Source("hl".into()));
    press(&mut e, &["j"]);
    e.toggle_checkbox(None);
    assert_eq!(e.buf.text(), "\tx\n\t[x] task\n\t[x] done");
    e.toggle_checkbox(None);
    assert_eq!(e.buf.text(), "\tx\n\t[_] task\n\t[x] done");
    press(&mut e, &["j"]);
    e.toggle_checkbox(None);
    e.toggle_checkbox(None);
    assert_eq!(e.buf.text(), "\tx\n\t[_] task\n\t[x] done");
}

#[test]
fn a_line_moved_down_and_up_is_as_before() {
    let mut e = editor("a\nbb\nccc");
    press(&mut e, &["j", "C-DOWN"]);
    assert_eq!(e.buf.text(), "a\nccc\nbb");
    assert_eq!(e.cur_line, 2);
    press(&mut e, &["C-UP"]);
    assert_eq!(e.buf.text(), "a\nbb\nccc");
    assert_eq!(e.cur_line, 1);
}

#[test]
fn a_mark_leads_back_to_its_place() {
    let mut e = editor("one two\nthree four\nfive");
    press(&mut e, &["j", "w", "l", "m", "q", "G"]);
    assert_eq!((e.cur_line, e.cur_col), (2, 0));
    press(&mut e, &["`", "q"]);
    assert_eq!((e.cur_line, e.cur_col), (1, 7));
    press(&mut e, &["G", "'", "q"]);
    assert_eq!((e.cur_line, e.cur_col), (1, 0));
}

#[test]
fn a_pattern_shows_and_hides_lines() {
    let mut e = editor("keep a\nx1\ny\nkeep b");
    let lines = e.all_lines();
    let visible = |e: &Editor| -> Vec<usize> {
        (0..4).filter(|&k| e.folds.is_visible(k, &lines)).collect()
    };
    e.execute_command("show ke+p");
    assert_eq!(visible(&e), vec![0, 1, 3]);
    e.execute_command("hide ke+p");
    assert_eq!(visible(&e), vec![0, 1, 2, 3]);
    e.execute_command("hide ^[a-y]");
    assert_eq!(visible(&e), vec![0]);
    assert_eq!(e.status.as_ref().map(|s| s.0.as_str()), Some(" hide: /^[a-y]/"));
}

#[test]
fn the_case_of_a_selection() {
    let mut e = editor("straße Ä\nrest");
    press(&mut e, &["v", "$", "U"]);
    assert_eq!(e.buf.line(0), "STRASSE Ä");
    press(&mut e, &["0", "v", "$", "u"]);
    assert_eq!(e.buf.line(0), "strasse ä");
    press(&mut e, &["0", "v", "$", "~"]);
    assert_eq!(e.buf.line(0), "STRASSE Ä");
}

#[test]
fn one_undo_takes_back_a_put_a_block_and_a_move() {
    let mut e = editor("abc\ndef\nghi");
    press(&mut e, &["C-V", "j", "l", "d"]);
    assert_eq!(e.buf.text(), "c\nf\nghi");
    press(&mut e, &["u"]);
    assert_eq!(e.buf.text(), "abc\ndef\nghi");
    assert_eq!(e.cur_line, 1);
    press(&mut e, &["0", "p"]);
    assert_eq!(e.buf.text(), "abc\ndabef\ngdehi");
    press(&mut e, &["u"]);
    assert_eq!(e.buf.text(), "abc\ndef\nghi");
    press(&mut e, &["g", "g", "C-DOWN"]);
    assert_eq!(e.buf.text(), "def\nabc\nghi");
    press(&mut e, &["u"]);
    assert_eq!(e.buf.text(), "abc\ndef\nghi");
    press(&mut e, &["y", "y", "3", "p", "u"]);
    assert_eq!(e.buf.text(), "abc\ndef\nghi");
}

#[test]
fn closed_folds_move_with_their_lines() {
    let mut e = editor_of("a\n\tb\n\t\tc\n\td\nx\ny\n", FileKind::Source("hl".into()));
    press(&mut e, &["j", " ", "k", " "]);
    assert!(e.folds.is_closed(0) && e.folds.is_closed(1));
    press(&mut e, &["C-DOWN"]);
    assert_eq!(e.buf.text(), "x\na\n\tb\n\t\tc\n\td\ny\n");
    assert!(e.folds.is_closed(1) && e.folds.is_closed(2) && e.folds.count() == 2);
    assert_eq!(e.cur_line, 1);
    press(&mut e, &["j", "C-UP"]);
    assert_eq!(e.buf.text(), "x\ny\na\n\tb\n\t\tc\n\td\n");
    assert!(e.folds.is_closed(2) && e.folds.is_closed(3) && e.folds.count() == 2);
}

#[test]
fn a_presentation_folds_everything_else() {
    let mut e = editor_of("a\n\tb\nc\n\td\n\t\te\n\tf\n", FileKind::Source("hl".into()));
    press(&mut e, &["g", "DOWN"]);
    assert_eq!(e.cur_line, 1);
    assert!(!e.folds.is_closed(0) && e.folds.is_closed(2) && e.folds.is_closed(3));
    press(&mut e, &["g", "DOWN"]);
    assert_eq!(e.cur_line, 2);
    assert!(e.folds.is_closed(0) && !e.folds.is_closed(2) && e.folds.is_closed(3));
    press(&mut e, &["g", "DOWN"]);
    assert_eq!(e.cur_line, 3);
    assert!(e.folds.is_closed(0) && !e.folds.is_closed(2) && !e.folds.is_closed(3));
}

#[test]
fn a_block_is_shifted_by_lines() {
    for key in [">", "<"] {
        let text = "\tone\n\ttwo\n\tthree";
        let mut lines = editor(text);
        press(&mut lines, &["V", "j", key]);
        let mut block = editor(text);
        press(&mut block, &["C-V", "j", "l", key]);
        assert_eq!(block.buf.text(), lines.buf.text());
        assert_ne!(block.buf.text(), text);
        assert!(matches!(block.mode, Mode::Normal));
        assert!(block.regs.get('"').is_none());
    }
}

#[test]
fn operators_take_what_a_find_covers() {
    let mut e = editor("one, two, three, four");
    press(&mut e, &["d", "f", ","]);
    assert_eq!(e.buf.text(), " two, three, four");
    press(&mut e, &["."]);
    assert_eq!(e.buf.text(), " three, four");
    press(&mut e, &["d", "t", ","]);
    assert_eq!(e.buf.text(), ", four");
    // Nothing is found, and the operator is over.
    press(&mut e, &["d", "f", "z", "w"]);
    assert_eq!(e.buf.text(), ", four");

    let mut e = editor("abcabc");
    press(&mut e, &["$", "d", "F", "b"]);
    assert_eq!(e.buf.text(), "abcac");
    let mut e = editor("abcabc");
    press(&mut e, &["$", "d", "T", "a"]);
    assert_eq!(e.buf.text(), "abcac");

    let mut e = editor("a(b) c(d)");
    press(&mut e, &["c", "t", "(", "x", "ESC", "w", "w", "w"]);
    assert_eq!(e.buf.text(), "x(b) c(d)");
    let mut e = editor("ab-cd ef-gh");
    press(&mut e, &["c", "f", "-", "x", "ESC"]);
    assert_eq!(e.buf.text(), "xcd ef-gh");
    press(&mut e, &["w", "."]);
    assert_eq!(e.buf.text(), "xcd xgh");
    let mut e = editor("one, two");
    press(&mut e, &["y", "t", ","]);
    assert_eq!(e.buf.text(), "one, two");
    assert_eq!(e.regs.get('"').unwrap().text, "one");
}

#[test]
fn typed_text_is_the_last_change_unless_a_change_takes_it() {
    let mut e = editor("one two");
    press(&mut e, &["d", "w", "i", "f", "o", "o", "ESC"]);
    assert_eq!(e.buf.text(), "footwo");
    press(&mut e, &["."]);
    assert_eq!(e.buf.text(), "foofootwo");

    let mut e = editor("one two");
    press(&mut e, &["c", "w", "x", "ESC", "i", "y", "ESC", "."]);
    assert_eq!(e.buf.text(), "xyytwo");

    // A selection changed takes no part in an earlier operator.
    let mut e = editor("one two three");
    press(&mut e, &["d", "w", "v", "c", "z", "ESC"]);
    assert_eq!(e.buf.text(), "zwo three");
    press(&mut e, &["."]);
    assert_eq!(e.buf.text(), "zzwo three");
}

#[test]
fn changes_up_to_the_end_of_the_line_are_made_again() {
    let mut e = editor("one\ntwo\nsix");
    press(&mut e, &["l", "D"]);
    assert_eq!(e.buf.text(), "o\ntwo\nsix");
    press(&mut e, &["j", "l", "."]);
    assert_eq!(e.buf.text(), "o\nt\nsix");
    let mut e = editor("one\ntwo");
    press(&mut e, &["l", "C", "x", "y", "ESC", "j", "0", "."]);
    assert_eq!(e.buf.text(), "oxy\nxy");
}

#[test]
fn motions_by_lines_take_whole_lines() {
    for (keys, want) in [
        (["l", "-"], "three"),
        (["l", "C-HOME"], "three"),
        (["l", "k"], "three"),
        (["l", "UP"], "three"),
        (["l", "C-END"], "one\n"),
        (["l", "G"], "one\n"),
        (["l", "j"], "one\n"),
        (["l", "DOWN"], "one\n"),
    ] {
        let mut e = editor("one\ntwo\nthree");
        press(&mut e, &["j", keys[0], "d", keys[1]]);
        assert_eq!(e.buf.text(), want, "d{}", keys[1]);
    }
    let mut e = editor("a\nb\nc\nd\ne");
    press(&mut e, &["j", "d", "-"]);
    assert_eq!(e.buf.text(), "c\nd\ne");
    press(&mut e, &["j", "."]);
    assert_eq!(e.buf.text(), "e");
    let mut e = editor("a\nb\nc\nd");
    press(&mut e, &["j", "d", "g", "g"]);
    assert_eq!(e.buf.text(), "c\nd");
    press(&mut e, &["j", "."]);
    assert_eq!(e.buf.text(), "");
    let mut e = editor("a\nb\nc\nd");
    press(&mut e, &["j", "j", "d", "G"]);
    assert_eq!(e.buf.text(), "a\nb\n");
    press(&mut e, &["u", "g", "g", "j", "."]);
    assert_eq!(e.buf.text(), "a\n");
    let mut e = editor("a\nb\nc\nd\ne");
    press(&mut e, &["m", "a", "j", "d", "'", "a"]);
    assert_eq!(e.buf.text(), "c\nd\ne");
    press(&mut e, &["j", "."]);
    assert_eq!(e.buf.text(), "e");
}

#[test]
fn every_text_object_is_taken_again() {
    let mut e = editor("<a> <b>");
    press(&mut e, &["l", "d", "i", "<"]);
    assert_eq!(e.buf.text(), "<> <b>");
    press(&mut e, &["f", "b", "."]);
    assert_eq!(e.buf.text(), "<> <>");
    let mut e = editor("`a`\n`b`");
    press(&mut e, &["l", "d", "i", "`", "j", "l", "."]);
    assert_eq!(e.buf.text(), "``\n``");
    let mut e = editor("ab\ncd");
    press(&mut e, &["d", "i", "W", "j", "."]);
    assert_eq!(e.buf.text(), "\n");
}

#[test]
fn a_selection_is_filled() {
    for keys in [["V", "j"], ["v", "j"], ["C-V", "j"]] {
        let mut e = editor("one\ntwo\n\nthree");
        press(&mut e, &keys);
        press(&mut e, &["g", "q"]);
        assert_eq!(e.buf.text(), "one two\n\nthree", "{}", keys[0]);
        assert!(matches!(e.mode, Mode::Normal));
    }
    let mut e = editor("a\nb\nc");
    press(&mut e, &["G", "V", "g", "g", "d"]);
    assert_eq!(e.buf.text(), "");
    let mut e = editor("a\nb");
    press(&mut e, &["v", "g", "ESC"]);
    assert!(matches!(e.mode, Mode::Normal));
}

#[test]
fn a_named_key_names_no_register() {
    let mut e = editor("one\ntwo");
    press(&mut e, &["\"", "C-Y"]);
    assert_eq!(e.regs.get('0').unwrap().text, "one\ntwo\n");
    press(&mut e, &["\"", "ESC", "x"]);
    assert_eq!(e.buf.text(), "ne\ntwo");
    press(&mut e, &["\"", "LEFT", "d", "d"]);
    assert_eq!(e.buf.text(), "two");
    assert!(e.regs.get('L').is_none());
    let mut e = editor("one");
    press(&mut e, &["v", "\"", "ESC"]);
    assert!(matches!(e.mode, Mode::Normal));
    press(&mut e, &["v", "\"", "q", "y"]);
    assert_eq!(e.regs.get('q').unwrap().text, "o");
}

#[test]
fn the_assistant_gets_the_lines_of_a_selection_by_lines() {
    let mut e = editor("a\nbc");
    press(&mut e, &["g", "g", "V", "G"]);
    assert_eq!(e.assist_input("tighten"), (0, 4, "a\nbc".to_string(), true));
}

#[test]
fn operators_follow_word_searches() {
    let mut e = editor("foo bar\nfoo\nfoo baz");
    press(&mut e, &["d", "*"]);
    assert_eq!(e.buf.text(), "foo\nfoo baz");
    press(&mut e, &["."]);
    assert_eq!(e.buf.text(), "foo baz");
    let mut e = editor("foo bar foo");
    press(&mut e, &["$", "b", "d", "#"]);
    assert_eq!(e.buf.text(), "foo");
}

#[test]
fn a_character_taken_back_is_not_typed_again() {
    let mut e = editor("");
    press(&mut e, &["i", "f", "o", "x", "BACK", "o", "ESC", "."]);
    assert_eq!(e.buf.text(), "fofooo");
    let mut e = editor("ab\ncd");
    press(&mut e, &["C-V", "j", "c", "x", "y", "BACK", "ESC"]);
    assert_eq!(e.buf.text(), "xb\nxd");
    let mut e = editor("one two");
    press(&mut e, &["c", "i", "w", "x", "y", "BACK", "ESC", "w", "."]);
    assert_eq!(e.buf.text(), "x x");
}

#[test]
fn every_motion_takes_a_count() {
    let mut e = editor("a.b.c.d");
    press(&mut e, &["2", "f", "."]);
    assert_eq!(e.cur_col, 3);
    press(&mut e, &["$", "3", "F", "."]);
    assert_eq!(e.cur_col, 1);
    // There are not that many.
    press(&mut e, &["9", "f", "."]);
    assert_eq!(e.cur_col, 1);
    let mut e = editor("a.b.c.d.e.f");
    press(&mut e, &["d", "2", "f", "."]);
    assert_eq!(e.buf.text(), "c.d.e.f");
    press(&mut e, &["."]);
    assert_eq!(e.buf.text(), "e.f");
    let mut e = editor("foo x foo y foo z foo");
    press(&mut e, &["2", "*"]);
    assert_eq!(e.cur_col, 12);
    press(&mut e, &["2", "N"]);
    assert_eq!(e.cur_col, 0);
    press(&mut e, &["3", "n"]);
    assert_eq!(e.cur_col, 18);
}

#[test]
fn big_words_have_ends() {
    let mut e = editor("it's so-so now");
    press(&mut e, &["e"]);
    assert_eq!(e.cur_col, 1);
    press(&mut e, &["E"]);
    assert_eq!(e.cur_col, 3);
    press(&mut e, &["E"]);
    assert_eq!(e.cur_col, 9);
    press(&mut e, &["0", "d", "E"]);
    assert_eq!(e.buf.text(), " so-so now");
}

#[test]
fn pages_are_whole_or_half() {
    let text = "x\n".repeat(200);
    let mut e = editor(&text);
    press(&mut e, &["PgDOWN"]);
    assert_eq!(e.cur_line, e.pane_h as usize);
    press(&mut e, &["C-D"]);
    assert_eq!(e.cur_line, e.pane_h as usize + e.pane_h as usize / 2);
    press(&mut e, &["C-U", "PgUP"]);
    assert_eq!(e.cur_line, 0);
}

#[test]
fn folds_open_and_close_by_z() {
    let mut e = editor_of("a\n\tb\n\t\tc\nd", FileKind::Source("hl".into()));
    press(&mut e, &["z", "c"]);
    assert!(e.folds.is_closed(0));
    press(&mut e, &["z", "o"]);
    assert!(!e.folds.is_closed(0));
    press(&mut e, &["z", "a"]);
    assert!(e.folds.is_closed(0));
    press(&mut e, &["z", "R"]);
    assert!(!e.folds.is_closed(0) && !e.folds.is_closed(1));
    press(&mut e, &["z", "M"]);
    assert!(e.folds.is_closed(0));
    press(&mut e, &["z", "R", "j", "j", "z", "c"]);
    assert!(e.folds.is_closed(1));
    assert_eq!(e.cur_line, 1);
}

#[test]
fn g_and_a_question_mark_ask_for_help() {
    let mut e = editor("a");
    let a = press(&mut e, &["g", "?"]);
    assert!(matches!(a, Action::Shell(ShellCommand::Help, t) if t.is_empty()));
}

#[test]
fn the_file_type_has_three_names() {
    for name in ["set syntax=email", "set ft=email", "set filetype=email"] {
        let mut e = editor("a");
        e.execute_command(name);
        assert!(matches!(e.buf.kind, FileKind::Email), "{}", name);
    }
}

#[test]
fn finds_and_counts_extend_a_selection() {
    let mut e = editor("one, two, three");
    press(&mut e, &["v", "2", "f", ",", "d"]);
    assert_eq!(e.buf.text(), " three");
    let mut e = editor("one two three four");
    press(&mut e, &["v", "2", "w", "d"]);
    assert_eq!(e.buf.text(), "hree four");
    let mut e = editor("a\nb\nc\nd");
    press(&mut e, &["V", "2", "j", "d"]);
    assert_eq!(e.buf.text(), "d");
    let mut e = editor("abcd\nefgh");
    press(&mut e, &["C-V", "j", "t", "h", "d"]);
    assert_eq!(e.buf.text(), "d\nh");
    let mut e = editor("abc");
    press(&mut e, &["v", "f", "ESC", "l", "d"]);
    assert_eq!(e.buf.text(), "c");
}
