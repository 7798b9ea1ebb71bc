//! Answers of the spelling process.

use scribe::spell::{col_to_byte, parse_amp, parse_hash, query, Spell};

#[test]
fn parse_hash_basic() {
    let (w, c) = parse_hash("# zzzqq 5").unwrap();
    assert_eq!(w, "zzzqq");
    assert_eq!(c, 5);
}

#[test]
fn parse_amp_basic() {
    let (w, c, s) = parse_amp("& mispeled 5 3: misled, dispelled, misplaced, mistyped, misspelled").unwrap();
    assert_eq!(w, "mispeled");
    assert_eq!(c, 3);
    assert_eq!(s.len(), 5);
    assert_eq!(s[4], "misspelled");
}

#[test]
fn col_byte_ascii() {
    assert_eq!(col_to_byte("hello", 3), 2);
}

#[test]
fn col_byte_utf8() {
    assert_eq!(col_to_byte("kåre", 3), 3);
}

#[test]
fn col_byte_past_the_end() {
    assert_eq!(col_to_byte("kåre", 40), 5);
    assert_eq!(col_to_byte("kåre", 0), 0);
}

#[test]
fn malformed_replies_are_refused() {
    assert!(parse_hash("# word").is_none());
    assert!(parse_hash("* ok 3").is_none());
    assert!(parse_hash("# word x").is_none());
    assert!(parse_amp("& word 3").is_none());
    assert!(parse_amp("& word x 3: a").is_none());
}

#[test]
fn replies_become_ranges_up_to_the_blank_line() {
    let s = Spell::new();
    let replies: Vec<String> = vec![
        "*\n".to_string(),
        "# zzz 4\n".to_string(),
        "& ab 2 9: abb, abc\n".to_string(),
        "\n".to_string(),
        "# later 1\n".to_string(),
    ];
    let m = s.check_line("ok zzz x ab", 100, &replies);
    assert_eq!(m.len(), 2);
    assert_eq!((m[0].start, m[0].end), (103, 106));
    assert_eq!((m[1].start, m[1].end), (108, 110));
    assert_eq!(m[1].suggestions, vec!["abb".to_string(), "abc".to_string()]);
}

#[test]
fn personal_words_are_passed_over_in_any_case() {
    let mut s = Spell::new();
    s.load_personal(&vec!["Hilsen".to_string()]);
    s.add_personal("ZZZ");
    let replies: Vec<String> = vec!["# HILSEN 1".to_string(), "# zzz 8".to_string(), "# qqq 12".to_string()];
    let m = s.check_line("HILSEN zzz qqq", 0, &replies);
    assert_eq!(m.len(), 1);
    assert_eq!(m[0].word, "qqq");
}

#[test]
fn queries_carry_a_caret_and_skip_blank_lines() {
    assert_eq!(query("hello"), Some("^hello".to_string()));
    assert_eq!(query("  \t"), None);
}

#[test]
fn lines_are_checked_in_order() {
    let s = Spell::new();
    let lines = vec![("aa".to_string(), 0usize), ("".to_string(), 3), ("bb".to_string(), 4)];
    let replies = vec![vec!["# aa 1".to_string()], vec!["# no 1".to_string()], vec!["# bb 1".to_string()]];
    let m = s.check_lines(&lines, &replies);
    assert_eq!(m.len(), 2);
    assert_eq!(m[1].start, 4);
}
