//! Exports, the calendar, popups, the picker and questions to an assistant.

use scribe::buffer::{Buffer, FileKind};
use scribe::calendar::{
    add_future_events, calendar_target, days_to_ymd, scan_date, today_ymd, CalendarReport,
};
use scribe::config::RcConfig;
use scribe::editor::assist::{answer_popup, assist_prompt, chat_intro};
use scribe::editor::command::complete_colon_command;
use scribe::editor::markup::{
    is_markup, parse_colors, parse_font, save_choice, Rekey, SaveChoice,
};
use scribe::editor::popups::{parse_color, ConfigStep};
use scribe::editor::refs::{find_reference, looks_like_path, looks_like_url};
use scribe::editor::state::Editor;
use scribe::export::{detect_operator, esc_html, esc_latex, parse_target, to_html, to_latex, to_markdown, Target};
use scribe::help;
use scribe::picker::{Catalog, Category, Glyph, InitialTab, Picked, Picker, Tab};
use scribe::popup::{
    popup_height, popup_step, popup_width, show_hl_cheatsheet, show_keys_popup, PopupStep, Span,
};
use scribe::register::Registers;

fn editor(text: &str) -> Editor {
    Editor::new(
        Buffer::from_str(text, FileKind::Plain),
        80,
        24,
        RcConfig::empty(),
        None,
        Registers::new(),
        Vec::new(),
        "helper".into(),
    )
}

fn press(e: &mut Editor, keys: &[&str]) {
    for k in keys {
        e.handle_key(k);
        while e.next_key().is_some() {}
    }
}

fn text_of(line: &Vec<Span>) -> String {
    line.iter().map(|s| s.text.as_str()).collect()
}

#[test]
fn html_is_escaped() {
    assert_eq!(esc_html("<a & \"b\">"), "&lt;a &amp; &quot;b&quot;&gt;");
    let page = to_html("Item <b>\n\tchild", "T&x");
    assert!(page.contains("T&amp;x"));
    assert!(!page.contains("<b>"));
}

#[test]
fn latex_is_escaped() {
    assert_eq!(esc_latex("50% & $x_1"), "50\\% \\& \\$x\\_1");
    assert!(to_latex("a", "T").contains("\\begin{document}"));
    assert!(to_markdown("a\n\tb", "T").contains("a"));
}

#[test]
fn export_formats() {
    assert_eq!(parse_target("h"), Some(Target::Html));
    assert_eq!(parse_target("tex"), Some(Target::Latex));
    assert_eq!(parse_target("md"), Some(Target::Markdown));
    assert_eq!(parse_target("p"), Some(Target::Pdf));
    assert_eq!(parse_target("xml"), None);
    assert_eq!(Target::Latex.extension(), "tex");
    let mut e = editor("x");
    assert!(e.export_to("xml", "t").is_none());
    assert_eq!(e.message(), " unknown export format: xml");
    let (t, s) = e.export_to("docx", "t").unwrap();
    assert_eq!((t, s.as_str()), (Target::Docx, "x"));
    e.export_done(Target::Pdf, Err("boom".into()));
    assert_eq!(e.message(), " pdf export failed: boom");
    e.export_done(Target::Html, Ok("x.html".into()));
    assert_eq!(e.message(), " exported → x.html");
}

#[test]
fn dates_are_found() {
    assert_eq!(scan_date("meet 2024-03-05 noon"), Some((2024, 3, 5)));
    assert_eq!(scan_date("nothing"), None);
    assert_eq!(days_to_ymd(0), (1970, 1, 1));
    assert_eq!(days_to_ymd(19782), (2024, 2, 29));
    assert_eq!(today_ymd(86400 * 19782 + 5), (2024, 2, 29));
}

#[test]
fn past_events_are_left_out() {
    let t = "2020-01-01 old\n2030-05-06 new thing\nno date";
    let ev = add_future_events(t, (2024, 1, 1), false);
    assert_eq!(ev.len(), 1);
    assert!(ev[0].ics_body().contains("20300506"));
    assert_eq!(add_future_events(t, (2024, 1, 1), true).len(), 2);
    let r = CalendarReport::of(&ev, &vec![Ok(())]);
    assert!(r.message(true).0.contains('1'));
}

#[test]
fn help_is_searched() {
    assert_eq!(help::help_index("helper").len(), 83);
    let hits = help::search("FOLD", "helper");
    assert!(!hits.is_empty());
    assert!(hits.len() < 83);
    assert_eq!(help::search("zzzzqq", "helper").len(), 0);
    // The rows about the assistant go by its name.
    let hits = help::search("Helper", "helper");
    assert_eq!(hits.len(), 3);
    assert_eq!(hits[0].description, "look up the word under the cursor via Helper");
    assert_eq!(hits[1].trigger, ":helper {prompt}");
    assert_eq!(hits[1].description, "run helper -p over selection / paragraph / buffer");
    assert_eq!(hits[2].description, "full interactive Helper session");
}

fn glyph(g: &str, code: &str, label: &str) -> Glyph {
    Glyph { glyph: g.into(), code: code.into(), label: label.into() }
}

fn catalog() -> Catalog {
    Catalog {
        digraphs: vec![glyph("å", "aa", "A WITH RING"), glyph("ø", "o/", "O WITH STROKE")],
        emoji: vec![
            Category { name: "Faces".into(), items: vec![glyph("😀", "", "grinning face")] },
            Category { name: "Food".into(), items: vec![glyph("🍎", "", "red apple")] },
        ],
    }
}

#[test]
fn the_picker_filters_and_picks() {
    let c = catalog();
    let mut p = Picker::pick(InitialTab::All, &c);
    p.frame(&c);
    assert_eq!(p.rows(&c).len(), 4);
    for k in ["r", "i", "n", "g"] {
        assert!(matches!(p.key(&c, k), Picked::Open));
    }
    p.frame(&c);
    assert_eq!(p.rows(&c).len(), 1);
    assert!(matches!(p.key(&c, "ENTER"), Picked::Glyph(ref g) if g == "å"));
    assert!(matches!(p.key(&c, "BACK"), Picked::Open));
    assert_eq!(p.query, "rin");
    assert!(matches!(p.key(&c, "ESC"), Picked::Cancelled));
}

#[test]
fn the_picker_walks_its_tabs() {
    let c = catalog();
    let mut p = Picker::pick(InitialTab::Emoji, &c);
    assert_eq!(p.tab, Tab::Emoji(0));
    p.key(&c, "TAB");
    assert_eq!(p.tab.title(&c), "Food");
    p.key(&c, "TAB");
    assert_eq!(p.tab, Tab::All);
    p.key(&c, "S-TAB");
    assert_eq!(p.tab, Tab::Emoji(1));
    p.key(&c, "S-TAB");
    p.key(&c, "S-TAB");
    assert_eq!(p.tab, Tab::Digraphs);
    p.key(&c, "DOWN");
    p.key(&c, "DOWN");
    assert_eq!(p.cursor, 1);
    assert!(matches!(p.key(&c, "\n"), Picked::Glyph(ref g) if g == "ø"));
    p.key(&c, "HOME");
    assert_eq!(p.cursor, 0);
}

#[test]
fn popups_list_the_keys() {
    let p = show_keys_popup(78);
    assert_eq!(text_of(&p[1]), "  Scribe — keybindings (:keys)");
    assert_eq!(text_of(&p[3]), "  MOTION");
    assert_eq!(text_of(&p[4]), "  h j k l             left / down / up / right");
    assert_eq!(text_of(&p[2]).len(), 76);
    let c = show_hl_cheatsheet();
    assert_eq!(text_of(&c[3]), "  \\0..\\9        fold to level 0..9");
    assert_eq!(text_of(c.last().unwrap()), "  ESC  Close");
    assert_eq!((popup_width(200, 78), popup_width(60, 78), popup_width(10, 78)), (78, 58, 50));
    assert_eq!((popup_height(40), popup_height(5)), (34, 12));
    assert_eq!(popup_step("q"), PopupStep::Close);
    assert_eq!(popup_step(" "), PopupStep::PageDown);
    assert_eq!(popup_step("?"), PopupStep::Stay);
}

#[test]
fn popups_show_registers_and_maps() {
    let mut e = editor("one\ntwo");
    assert_eq!(text_of(&e.show_reg_popup()[3]), "  (no registers set)");
    press(&mut e, &["\"", "a", "y", "y"]);
    let p: Vec<String> = e.show_reg_popup().iter().map(text_of).collect();
    assert!(p.contains(&"  \"a  [l]  one\\n".to_string()));
    let m: Vec<String> = e.show_maps_popup(60).iter().map(text_of).collect();
    assert_eq!(m[3], "  (no user keymaps defined)");
    assert_eq!(m.last().unwrap(), "  0 mapping(s)   j/k scroll   ESC / q  close");
    e.keymaps = scribe::config::load_scriberc("[map]\nNormal ab ddp\nodd q x\n").keymaps;
    let m: Vec<String> = e.show_maps_popup(60).iter().map(text_of).collect();
    assert_eq!(m[3], "  NORMAL");
    assert_eq!(m[4], "  ab          ddp");
    assert_eq!(m[6], "  OTHER");
}

#[test]
fn preferences_change() {
    let themes = vec!["a".to_string(), "b".to_string()];
    let mut e = editor("x");
    assert!(matches!(e.config_key("t", &themes), ConfigStep::SetTheme(ref t) if t == "b"));
    assert_eq!(e.theme_name, "b");
    assert!(matches!(e.config_key("t", &themes), ConfigStep::SetTheme(ref t) if t == "a"));
    e.config_key("r", &themes);
    assert!(e.options.numbers && e.options.relative_numbers);
    e.config_key("n", &themes);
    assert!(!e.options.numbers && !e.options.relative_numbers);
    assert!(matches!(e.config_key("s", &themes), ConfigStep::StartSpell));
    assert!(matches!(e.config_key("W", &themes), ConfigStep::Save));
    let p = e.show_config_popup(&themes, 196);
    assert_eq!(text_of(&p[3]), "  t  Theme:        a");
    assert_eq!(text_of(&p[4]), "  n  Number col:   off");
    assert_eq!(parse_color(" 12 "), Some(12));
    assert_eq!(parse_color("256"), None);
    e.rc_saved(Some("denied".into()));
    assert_eq!(e.message(), " scriberc save failed: denied");
}

#[test]
fn commands_complete() {
    assert_eq!(complete_colon_command(":ma", "helper"), vec!["mail", "map", "mappings", "maps"]);
    assert_eq!(complete_colon_command("he", "helper"), vec!["help", "helper"]);
    assert_eq!(complete_colon_command("zz", "helper").len(), 0);
}

#[test]
fn references() {
    assert_eq!(find_reference("see <one> and <two>", 12), Some("<two>".to_string()));
    assert_eq!(find_reference("see <one> and", 6), Some("<one>".to_string()));
    assert_eq!(find_reference("none", 0), None);
    assert!(looks_like_url("https://x") && !looks_like_url("x"));
    assert!(looks_like_path("~/x") && !looks_like_path("x/y"));
}

#[test]
fn colours_wrap_the_selection_in_one_step() {
    let mut e = editor("hello world");
    assert_eq!(parse_colors("fg= #112233 \nx\nbg=#FFFFFF\n"), ("#112233".into(), "#FFFFFF".into()));
    e.color_done(0, 5, Some(("#112233".into(), "#FFFFFF".into())));
    assert_eq!(e.buf.text(), "<span style=\"color:#112233\">hello</span> world");
    assert!(e.buffer_has_color());
    assert!(e.loses_color("txt") && !e.loses_color("MD"));
    e.strip_color_spans();
    assert_eq!(e.buf.text(), "hello world");
    e.undo();
    e.undo();
    assert_eq!(e.buf.text(), "hello world");
    e.color_done(0, 5, Some(("#111111".into(), "#eeeeee".into())));
    assert_eq!(
        e.buf.text(),
        "<span style=\"color:#111111;background-color:#eeeeee\">hello</span> world"
    );
    e.color_done(0, 5, None);
    assert_eq!(e.message(), " prism not available");
}

#[test]
fn fonts_wrap_the_selection() {
    assert_eq!(parse_font("family= Foo \nsize=12\n"), Some(("Foo".to_string(), 12)));
    assert_eq!(parse_font("size=12\n"), None);
    let mut e = editor("abc");
    e.font_done(1, 2, Some(("Foo".into(), 12)));
    assert_eq!(e.buf.text(), "a<span style=\"font-family:'Foo';font-size:12pt\">b</span>c");
    assert_eq!(e.message(), " font: Foo 12pt (\\F)");
    e.font_done(1, 2, None);
    assert_eq!(e.message(), " font pick cancelled");
}

#[test]
fn answers_to_saving() {
    assert_eq!(save_choice(" Md"), SaveChoice::Markdown);
    assert_eq!(save_choice("h"), SaveChoice::Html);
    assert_eq!(save_choice("D"), SaveChoice::Discard);
    assert_eq!(save_choice(""), SaveChoice::Cancel);
    assert!(is_markup("Html") && !is_markup("txt"));
}

#[test]
fn new_passwords() {
    let mut e = editor("ENC:xyz");
    assert!(e.is_encrypted());
    e.rekey_done(Rekey::WrongPassword);
    assert_eq!(e.message(), " wrong password");
    e.rekey_done(Rekey::Done("ENC:abc".into()));
    assert_eq!(e.buf.text(), "ENC:abc");
    assert_eq!(e.message(), " rekeyed");
    e.rekey_done(Rekey::Failed("x".into()));
    assert_eq!(e.message(), " rekey failed: x");
    e.rekey_done(Rekey::Cancelled);
    assert_eq!(e.message(), " cancelled");
}

#[test]
fn terms_are_looked_up() {
    let mut e = editor("see (user@host), and");
    press(&mut e, &["f", "u"]);
    assert_eq!(e.token_at_cursor(), Some("user@host".to_string()));
    let l = e.lookup_word().unwrap();
    assert_eq!(l.term, "user@host");
    assert!(l.prompt.starts_with("Explain \"user@host\" as it is used"));
    assert_eq!(l.context, "see (user@host), and");
    assert_eq!(e.message(), " looking up “user@host”…");
    assert_eq!(e.lookup_done(Ok(" yes \n".into())), Some("yes".to_string()));
    assert_eq!(e.lookup_done(Ok(" \n".into())), None);
    assert_eq!(e.message(), " helper returned empty response");
    let mut e = editor("");
    assert!(e.lookup_word().is_none());
    assert_eq!(e.message(), " no token under cursor");
}

#[test]
fn answers_replace_the_paragraph() {
    let mut e = editor("para one\nmore\n\nnext");
    let req = e.assist_input("tighten");
    assert!(req.3);
    assert!(req.2.starts_with("para one\nmore"));
    e.assist_done(req, Ok("short\n\n\n".into()));
    assert!(e.buf.text().starts_with("short\n"));
    assert!(e.buf.text().ends_with("next"));
    e.undo();
    assert_eq!(e.buf.text(), "para one\nmore\n\nnext");
    let req = e.assist_input("continue");
    assert_eq!((req.0, req.1, req.3), (0, 0, false));
    e.assist_done(req, Err("no net".into()));
    assert_eq!(e.message(), " helper: no net");
    assert!(assist_prompt("grammar").starts_with("Fix grammar"));
    assert_eq!(assist_prompt("do it"), "do it");
    assert!(chat_intro(&None, "/tmp/x").starts_with("I'm editing [no name] in scribe."));
}

#[test]
fn answers_are_shown() {
    let (w, h, p) = answer_popup("x", "one two", 100, 40);
    assert_eq!((w, h), (80, 8));
    assert_eq!(text_of(&p[3]), "  one two");
    assert_eq!(text_of(p.last().unwrap()), "  ESC / q  Close");
}

#[test]
fn days_before_the_epoch_are_dates_too() {
    assert_eq!(days_to_ymd(-1), (1969, 12, 31));
    assert_eq!(days_to_ymd(-719528), (0, 1, 1));
    assert_eq!(days_to_ymd(-719529), (-1, 12, 31));
    assert_eq!(days_to_ymd(2899999), (9909, 12, 6));
}

#[test]
fn a_calendar_is_used_only_with_its_program() {
    assert_eq!(calendar_target(Some("me".into()), true).as_deref(), Some("me"));
    assert_eq!(calendar_target(Some("me".into()), false), None);
    assert_eq!(calendar_target(None, true), None);
}

#[test]
fn operators_may_have_several_words() {
    let chars = |s: &str| s.chars().collect::<Vec<char>>();
    assert_eq!(detect_operator(&chars("ONE OF THESE: x")), Some(14));
    assert_eq!(detect_operator(&chars("AND/OR: x")), Some(8));
    assert_eq!(detect_operator(&chars("ONE  OF: x")), None);
    assert_eq!(detect_operator(&chars("One of: x")), None);
    assert_eq!(detect_operator(&chars("AND : x")), None);
}

#[test]
fn open_boxes_are_task_lists() {
    let md = to_markdown("[_] a\n[x] b\n", "T");
    assert!(md.contains("- [ ] a\n"));
    assert!(md.contains("- [x] b\n"));
}

#[test]
fn a_searched_word_is_taken_literally() {
    let mut e = editor("a_1 x\na_1\n");
    press(&mut e, &["*"]);
    assert_eq!(e.cur_line, 1);
}
