//! Folding by indentation.

use scribe::fold::{fold_end, fold_level, Folds};

fn lines(s: &str) -> Vec<String> {
    s.lines().map(|l| l.to_string()).collect()
}

#[test]
fn fold_level_counts_tabs_and_asterisks() {
    assert_eq!(fold_level("foo"), 0);
    assert_eq!(fold_level("\tfoo"), 1);
    assert_eq!(fold_level("\t\tfoo"), 2);
    assert_eq!(fold_level("**foo"), 2);
    assert_eq!(fold_level("\t*foo"), 2);
}

#[test]
fn fold_end_basic() {
    let l = lines("a\n\tb\n\t\tc\n\td\ne");
    assert_eq!(fold_end(0, &l), 3);
    assert_eq!(fold_end(1, &l), 2);
    assert_eq!(fold_end(4, &l), 4);
}

#[test]
fn toggle_hides_children() {
    let l = lines("a\n\tb\n\tc\nd");
    let mut f = Folds::new();
    f.toggle_at(0, &l);
    assert!(f.is_visible(0, &l));
    assert!(!f.is_visible(1, &l));
    assert!(!f.is_visible(2, &l));
    assert!(f.is_visible(3, &l));
    f.toggle_at(0, &l);
    assert!(f.is_visible(1, &l));
}

#[test]
fn shift_lines_keeps_folds_attached() {
    let before = lines("a\n\tb1\n\t\tc1\n\tb2\n\t\tc2");
    let mut f = Folds::new();
    f.set_level(1, &before);
    assert!(!f.is_visible(2, &before));
    let after = lines("a\n\tb1\n\t\tc1\n\tnew\n\t\tchild\n\tb2\n\t\tc2");
    f.shift_lines(2, 2);
    assert!(f.is_visible(3, &after), "new item visible");
    assert!(f.is_visible(4, &after), "typed child stays visible");
    assert!(!f.is_visible(6, &after), "b2 stays collapsed");
    f.shift_lines(2, -2);
    assert!(!f.is_visible(2, &before));
    assert!(!f.is_visible(4, &before));
}

#[test]
fn set_level_hides_deep() {
    let l = lines("a\n\tb\n\t\tc\n\td\ne");
    let mut f = Folds::new();
    f.set_level(1, &l);
    assert!(f.is_visible(0, &l));
    assert!(f.is_visible(1, &l));
    assert!(!f.is_visible(2, &l));
    assert!(f.is_visible(3, &l));
    f.set_level(0, &l);
    assert!(f.is_visible(0, &l));
    assert!(!f.is_visible(1, &l));
}

#[test]
fn blank_lines_belong_to_the_fold_when_a_child_follows() {
    let l = lines("a\n\tb\n\n\tc\n\nd");
    assert_eq!(fold_end(0, &l), 3);
}

#[test]
fn leaf_toggle_closes_parent_then_opens_it() {
    let l = lines("a\n\tb\n\tc\nd");
    let mut f = Folds::new();
    f.toggle_at(2, &l);
    assert!(f.is_closed(0));
    f.toggle_at(2, &l);
    assert!(!f.is_closed(0));
}

#[test]
fn recursive_toggle_closes_and_opens_the_tree() {
    let l = lines("a\n\tb\n\t\tc\nd");
    let mut f = Folds::new();
    f.toggle_recursive_at(0, &l);
    assert!(f.is_closed(0) && f.is_closed(1));
    assert_eq!(f.count(), 2);
    f.toggle_recursive_at(0, &l);
    assert_eq!(f.count(), 0);
}

#[test]
fn closed_folds_are_listed_innermost_first() {
    let l = lines("a\n\tb\n\t\tc\nd");
    let mut f = Folds::new();
    f.close(0, &l);
    f.close(1, &l);
    assert_eq!(f.closed_folds_containing(2, &l), vec![1, 0]);
}

#[test]
fn explicit_range_hides_all_but_its_head() {
    let l = lines("a\nb\nc\nd");
    let mut f = Folds::new();
    f.close_range(1, 2);
    assert!(f.is_visible(1, &l));
    assert!(!f.is_visible(2, &l));
    assert!(f.is_visible(3, &l));
    f.close_range(3, 3);
    assert!(f.is_visible(3, &l));
    f.clear();
    assert!(f.is_visible(2, &l));
}

#[test]
fn shift_drops_the_head_of_a_deleted_span() {
    let l = lines("0\n1\n2\n3\n4\n5\n\ta\n7\n8\n9\n\tb");
    let mut f = Folds::new();
    f.close(5, &l);
    f.close(9, &l);
    f.close(9, &l);
    assert_eq!(f.count(), 2);
    f.shift_lines(4, -3);
    assert!(!f.is_closed(5));
    assert!(f.is_closed(6));
    assert_eq!(f.count(), 1);
}

#[test]
fn a_line_without_children_is_not_closed() {
    let l = lines("a\n\tb\nc");
    let mut f = Folds::new();
    f.close(1, &l);
    f.close(2, &l);
    f.close(7, &l);
    assert_eq!(f.count(), 0);
    f.close(0, &l);
    assert!(f.is_closed(0));
}

#[test]
fn opening_all_opens_ranges_too() {
    let l = lines("a\n\tb\nc\nd");
    let mut f = Folds::new();
    f.close(0, &l);
    f.close_range(1, 3);
    f.open_all();
    assert!(f.is_visible(1, &l) && f.is_visible(2, &l) && f.is_visible(3, &l));
}
