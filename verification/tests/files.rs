//! Configuration files, sessions and the command line.

use scribe::buffer::{Buffer, FileKind};
use scribe::config::{
    find_session, load_abbreviations, load_cmd_history, load_personal_dict, load_scriberc,
    save_abbreviations, save_cmd_history, save_scriberc, save_session, Preferences, RcConfig,
    SessionEntry, HISTORY, SESSIONS,
};
use scribe::editor::state::{Action, Editor, ShellCommand};
use scribe::mode::Mode;
use scribe::register::{Registers, Yank, YankKind};
use scribe::start::{
    auto_spell, is_encrypted_dotfile, password_label, read_input, Args, Input,
};

fn args(v: &[&str]) -> Args {
    Args::parse(&v.iter().map(|s| s.to_string()).collect())
}

#[test]
fn settings_are_read() {
    let c = load_scriberc(
        "# comment\ntheme = nord  # dark\nnumber=yes\nrnu = 1\nlang =\nspellcolor = 300\nrw = 72\n\
         calendar = me@x\nunknown = 3\n",
    );
    assert_eq!(c.theme.as_deref(), Some("nord"));
    assert!(c.number && c.relative_numbers && !c.spell);
    assert_eq!(c.spell_lang, None);
    assert_eq!(c.spell_color, None);
    assert_eq!(c.reading_width, 72);
    assert_eq!(c.calendar.as_deref(), Some("me@x"));
}

#[test]
fn key_maps_are_read() {
    let c = load_scriberc(
        "[keymap]\nNormal zr :read\ninsert jk   <Esc>\nnormal  zz  j\nbroken line\n[other]\nspell = on\n",
    );
    assert_eq!(c.keymaps.len(), 2);
    assert_eq!(c.keymaps[0].mode, "normal");
    assert_eq!(c.keymaps[0].lhs, vec!["z", "r"]);
    assert_eq!(c.keymaps[0].rhs, ":read");
    assert_eq!(c.keymaps[1].lhs, vec!["j", "k"]);
    assert_eq!(c.keymaps[1].rhs, "<Esc>");
    assert!(c.spell);
}

#[test]
fn saving_settings_keeps_the_other_lines() {
    let p = Preferences {
        theme: "nord".into(),
        number: true,
        relative_numbers: false,
        spell: false,
        lang: "nb_NO".into(),
        spell_color: 9,
    };
    let out = save_scriberc("# mine\ntheme = old\ncalendar = c\nlang=en_US # x\n", &p);
    assert_eq!(
        out,
        "# mine\ncalendar = c\ntheme = nord\nnumber = true\nrelativenumber = false\n\
         spell = false\nlang = nb_NO\nspellcolor = 9\n"
    );
    let c = load_scriberc(&out);
    assert_eq!(c.theme.as_deref(), Some("nord"));
    assert!(c.number);
    assert_eq!(c.spell_lang.as_deref(), Some("nb_NO"));
    assert_eq!(c.spell_color, Some(9));
}

#[test]
fn abbreviations_round_trip() {
    let a = vec![
        ("mvh".to_string(), "Med vennlig hilsen".to_string()),
        ("-g".to_string(), "/Geir".to_string()),
    ];
    let t = save_abbreviations(&a);
    assert_eq!(
        t,
        "# scribe insert-mode abbreviations — trigger<TAB>expansion\n-g\t/Geir\nmvh\tMed vennlig hilsen\n"
    );
    assert_eq!(load_abbreviations(&t), vec![a[1].clone(), a[0].clone()]);
    assert_eq!(
        load_abbreviations("  # c\n\nx\t1\nno tab\n x \t2\n\tv\n"),
        vec![("x".to_string(), "2".to_string())]
    );
}

#[test]
fn history_keeps_the_newest() {
    let h: Vec<String> = (0..HISTORY + 5).map(|i| format!("cmd {}", i)).collect();
    let t = save_cmd_history(&h);
    let back = load_cmd_history(&t);
    assert_eq!(back.len(), HISTORY);
    assert_eq!(back[0], "cmd 5");
    assert_eq!(back[HISTORY - 1], h[HISTORY + 4]);
    assert_eq!(load_cmd_history("\na\n\nb\n"), vec!["a", "b"]);
}

#[test]
fn personal_words_are_trimmed() {
    assert_eq!(load_personal_dict(" foo \n\n\tbar\n"), vec!["foo", "bar"]);
}

#[test]
fn sessions_are_capped_and_found() {
    let e = |n: usize| SessionEntry { line: n, col: 0, scroll: 0 };
    let mut s: Vec<(String, SessionEntry)> = Vec::new();
    for i in 0..SESSIONS + 3 {
        s = save_session(s, &format!("/f{}", i), e(i));
    }
    assert_eq!(s.len(), SESSIONS);
    assert_eq!(find_session(&s, "/f0"), None);
    s = save_session(s, "/f10", e(99));
    assert_eq!(s.len(), SESSIONS);
    let i = find_session(&s, "/f10").unwrap();
    assert_eq!(i, SESSIONS - 1);
    assert_eq!(s[i].1, e(99));
}

#[test]
fn arguments_are_read() {
    let a = args(&["+12", "--col", "3", "--insert", "--theme=nord", "--no-spell", "a.txt", "b.txt"]);
    assert_eq!(a.line, Some(12));
    assert_eq!(a.col, Some(3));
    assert!(a.insert && a.no_spell);
    assert_eq!(a.theme.as_deref(), Some("nord"));
    assert_eq!(a.path.as_deref(), Some("a.txt"));
    assert_eq!(a.export, None);
    let a = args(&["--export", "html", "x.hl"]);
    assert_eq!(a.export.as_deref(), Some("html"));
    let a = args(&["--pdf", "+x", "--col"]);
    assert_eq!(a.export.as_deref(), Some("pdf"));
    assert_eq!(a.line, None);
    assert_eq!(a.path.as_deref(), Some("--col"));
}

fn start(text: &str) -> Editor {
    Editor::new(
        Buffer::from_str(text, FileKind::Plain),
        80,
        24,
        RcConfig::empty(),
        Some("nord".into()),
        Registers::new(),
        Vec::new(),
        "helper".into(),
    )
}

#[test]
fn the_first_state() {
    let e = start("a\nb");
    assert_eq!(e.mode, Mode::Normal);
    assert_eq!((e.cur_line, e.cur_col, e.scroll), (0, 0, 0));
    assert_eq!((e.pane_x, e.pane_w, e.pane_h), (1, 80, 22));
    assert_eq!(e.theme_name, "nord");
    assert_eq!(e.spell_lang, "en_US");
}

#[test]
fn the_command_line_picks_the_place() {
    let mut e = start("one\ntwæ\n");
    e.start_at(Some(2), Some(4), true);
    assert_eq!((e.cur_line, e.cur_col), (1, 4));
    assert_eq!(e.mode, Mode::Insert);
    let mut e = start("one");
    e.start_at(Some(99), Some(99), false);
    assert_eq!((e.cur_line, e.cur_col), (0, 3));
    let mut e = start("one\ntwo");
    e.start_at(Some(0), Some(0), false);
    assert_eq!((e.cur_line, e.cur_col), (0, 0));
}

#[test]
fn a_session_is_taken_up_again() {
    let mut e = start("one\ntwæ\nthree");
    e.restore_session(SessionEntry { line: 1, col: 3, scroll: 1 });
    assert_eq!((e.cur_line, e.cur_col, e.scroll), (1, 2, 1));
    let s = e.session_entry();
    let mut f = start("one\ntwæ\nthree");
    f.restore_session(s);
    assert_eq!((f.cur_line, f.cur_col, f.scroll), (1, 2, 1));
    f.restore_session(SessionEntry { line: 50, col: 50, scroll: 50 });
    assert_eq!((f.cur_line, f.cur_col, f.scroll), (1, 2, 1));
    f.restore_session(SessionEntry { line: 2, col: 6, scroll: 0 });
    assert_eq!((f.cur_line, f.cur_col, f.scroll), (1, 2, 1));
    f.restore_session(SessionEntry { line: 0, col: 9, scroll: 0 });
    assert_eq!((f.cur_line, f.cur_col, f.scroll), (0, 3, 0));
}

#[test]
fn mail_starts_the_checker() {
    let mail = Buffer::from_str("", FileKind::Email);
    let plain = Buffer::from_str("", FileKind::Plain);
    assert!(auto_spell(&mail, false, false));
    assert!(!auto_spell(&mail, true, true));
    assert!(!auto_spell(&plain, false, false));
    assert!(auto_spell(&plain, true, false));
}

#[test]
fn decrypted_text_is_folded_away() {
    let mut e = start("");
    e.open_decrypted(Buffer::from_str("a\n\tsecret\nb", FileKind::Source("hl".into())));
    assert_eq!(e.message(), " decrypted (folds collapsed)");
    assert!(!e.folds.is_visible(1, &e.all_lines()));
    assert_eq!(password_label(0), "Password: ");
    assert_eq!(password_label(1), "Wrong — try again (2/3): ");
    e.wrong_password(0);
    assert_eq!(e.message(), " wrong password (1 of 3)");
}

#[test]
fn input_is_told_apart() {
    assert!(matches!(read_input("RESIZE"), Input::Resize));
    assert!(matches!(read_input("PASTE\0a\nb"), Input::Paste(ref t) if t == "a\nb"));
    assert!(matches!(read_input("PASTE"), Input::Key(ref k) if k == "PASTE"));
}

#[test]
fn saving_needs_a_file() {
    let mut e = start("x");
    assert_eq!(e.buf.save(), Err("no file".to_string()));
    e.rename("/tmp/x.txt");
    assert_eq!(e.buf.save(), Ok(("/tmp/x.txt".to_string(), "x".to_string())));
    e.insert_text_at_cursor("y");
    assert!(e.buf.is_dirty());
    e.written(None, None);
    assert!(!e.buf.is_dirty());
    assert_eq!(e.message(), " written");
    e.written(Some("a.md".into()), None);
    assert_eq!(e.message(), " written → a.md");
    e.written(None, Some("disk full".into()));
    assert_eq!(e.message(), " save failed: disk full");
}

#[test]
fn registers_survive_and_are_shared() {
    let mut a = Registers::new();
    a.yank(Some('q'), "kept\n".into(), YankKind::Linewise);
    a.cut(Some('+'), "gone".into(), YankKind::Charwise);
    let mut b = Registers::load(a.save());
    assert_eq!(b.get('q').map(|y| (y.text.as_str(), y.kind)), Some(("kept\n", YankKind::Linewise)));
    assert_eq!(b.get('"').map(|y| y.text.as_str()), Some("gone"));
    assert_eq!(b.get('0').map(|y| y.text.as_str()), Some("kept\n"));
    assert!(b.get('+').is_none());
    b.put('+', Yank { text: "own".into(), kind: YankKind::Block });
    b.put('z', Yank { text: "mine".into(), kind: YankKind::Charwise });
    a.yank(Some('q'), "newer".into(), YankKind::Charwise);
    b.refresh(&a.save());
    assert_eq!(b.get('q').map(|y| y.text.as_str()), Some("newer"));
    assert_eq!(b.get('+').map(|y| y.text.as_str()), Some("own"));
    assert_eq!(b.get('z').map(|y| y.text.as_str()), Some("mine"));
}

#[test]
fn a_change_on_disk_spares_unsaved_text() {
    let mut e = start("a\nb");
    e.changed_on_disk(Some(Buffer::from_str("c", FileKind::Plain)));
    assert_eq!(e.buf.text(), "c");
    assert_eq!(e.status, Some(("File reloaded (changed on disk)".into(), 2)));
    e.handle_key("x");
    e.changed_on_disk(Some(Buffer::from_str("other", FileKind::Plain)));
    assert_eq!(e.buf.text(), "");
    assert_eq!(
        e.status,
        Some((
            "External change detected — buffer dirty. :e to reload, :w to overwrite".into(),
            3
        ))
    );
    let mut e = start("a");
    e.changed_on_disk(None);
    assert_eq!(e.buf.text(), "a");
    assert_eq!(e.status, None);
}

#[test]
fn encrypted_text_is_not_written_elsewhere() {
    let mut e = start("");
    assert!(matches!(
        e.execute_command("w /tmp/x"),
        Action::Shell(ShellCommand::SaveAs, p) if p == "/tmp/x"
    ));
    e.open_decrypted(Buffer::from_str("secret", FileKind::Plain));
    assert!(matches!(e.execute_command("w /tmp/x"), Action::Nothing));
    assert_eq!(
        e.status,
        Some((" refusing :w <path> on encrypted buffer (would write cleartext)".into(), 196))
    );
    assert!(is_encrypted_dotfile(".keys.hl", ""));
    assert!(is_encrypted_dotfile("a.txt", "ENC:abc"));
    assert!(is_encrypted_dotfile(".profile", "x"));
    assert!(!is_encrypted_dotfile("keys.hl", "x"));
}

#[test]
fn saved_preferences_are_read_again() {
    let old = "# mine\ntheme = nord\nrw = 60\nrnu = on\ncalendar = me@x\n";
    let p = Preferences {
        theme: "plain".into(),
        number: true,
        relative_numbers: false,
        spell: true,
        lang: "nb_NO".into(),
        spell_color: 208,
    };
    let c = load_scriberc(&save_scriberc(old, &p));
    assert_eq!(c.theme.as_deref(), Some("plain"));
    assert!(c.number && !c.relative_numbers && c.spell);
    assert_eq!(c.spell_lang.as_deref(), Some("nb_NO"));
    assert_eq!(c.spell_color, Some(208));
    assert_eq!(c.reading_width, 60);
    assert_eq!(c.calendar.as_deref(), Some("me@x"));
}

#[test]
fn settings_stand_before_key_maps() {
    let old = "rw = 60\n[keymap]\nnormal zr :read\n[map]\nnormal zx :q\n";
    let p = Preferences {
        theme: "nord".into(),
        number: false,
        relative_numbers: false,
        spell: true,
        lang: "en_US".into(),
        spell_color: 7,
    };
    let out = save_scriberc(old, &p);
    assert_eq!(
        out,
        "rw = 60\ntheme = nord\nnumber = false\nrelativenumber = false\nspell = true\n\
         lang = en_US\nspellcolor = 7\n[keymap]\nnormal zr :read\n[map]\nnormal zx :q\n"
    );
    let c = load_scriberc(&out);
    assert_eq!(c.theme.as_deref(), Some("nord"));
    assert!(c.spell);
    assert_eq!(c.reading_width, 60);
    assert_eq!(c.keymaps.len(), 2);
}
