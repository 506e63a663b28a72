use minify_attr::pattern::{is_well_formed_table, Replacer};

fn rows(items: &[&str]) -> Vec<Vec<u8>> {
    items.iter().map(|s| s.as_bytes().to_vec()).collect()
}

fn replacer(patterns: &[&str], replacements: &[&str]) -> Replacer {
    match Replacer::new(rows(patterns), rows(replacements)) {
        Some(made) => made,
        None => panic!("the table is well formed"),
    }
}

#[test]
fn longest_pattern_wins_at_one_place() {
    let r = replacer(&["a", "ab"], &["1", "2"]);
    assert_eq!(r.replace_all(b"ab"), b"2".to_vec());
    assert_eq!(r.replace_all(b"aab"), b"12".to_vec());
    assert_eq!(r.replace_all(b"ba"), b"b1".to_vec());
}

#[test]
fn longest_wins_whatever_the_order_of_the_table() {
    let r = replacer(&["ab", "a"], &["2", "1"]);
    assert_eq!(r.replace_all(b"ab"), b"2".to_vec());
    assert_eq!(r.replace_all(b"xaxabx"), b"x1x2x".to_vec());
}

#[test]
fn leftmost_match_wins_over_a_longer_later_one() {
    let r = replacer(&["ab", "bcd"], &["X", "Y"]);
    assert_eq!(r.replace_all(b"abcd"), b"Xcd".to_vec());
    assert_eq!(r.replace_all(b"bcd"), b"Y".to_vec());
}

#[test]
fn matches_do_not_overlap() {
    let r = replacer(&["aa"], &["b"]);
    assert_eq!(r.replace_all(b"aaa"), b"ba".to_vec());
    assert_eq!(r.replace_all(b"aaaa"), b"bb".to_vec());
}

#[test]
fn a_replacement_is_not_scanned_again() {
    let r = replacer(&["a", "b"], &["b", "c"]);
    assert_eq!(r.replace_all(b"ab"), b"bc".to_vec());
}

#[test]
fn words_are_replaced_leftmost_longest() {
    let r = replacer(&["append", "appendage", "app"], &["x", "y", "z"]);
    assert_eq!(
        r.replace_all(b"append the app to the appendage"),
        b"x the z to the y".to_vec()
    );
}

#[test]
fn input_without_a_match_is_copied() {
    let r = replacer(&["q"], &["long replacement"]);
    assert_eq!(r.replace_all(b"no match here"), b"no match here".to_vec());
    assert_eq!(r.replace_all(b""), Vec::<u8>::new());
}

#[test]
fn a_replacement_may_be_empty() {
    let r = replacer(&["-"], &[""]);
    assert_eq!(r.replace_all(b"a-b--c"), b"abc".to_vec());
}

#[test]
fn an_empty_table_replaces_nothing() {
    let r = replacer(&[], &[]);
    assert_eq!(r.replace_all(b"abc"), b"abc".to_vec());
}

#[test]
fn a_table_with_an_empty_pattern_is_refused() {
    assert!(Replacer::new(rows(&["a", ""]), rows(&["1", "2"])).is_none());
    assert!(!is_well_formed_table(&rows(&[""]), &rows(&["x"])));
}

#[test]
fn a_table_with_a_repeated_pattern_is_refused() {
    assert!(Replacer::new(rows(&["a", "b", "a"]), rows(&["1", "2", "3"])).is_none());
    assert!(!is_well_formed_table(&rows(&["ab", "ab"]), &rows(&["x", "y"])));
}

#[test]
fn a_table_with_a_missing_replacement_is_refused() {
    assert!(Replacer::new(rows(&["a", "b"]), rows(&["1"])).is_none());
    assert!(Replacer::new(rows(&["a"]), rows(&["1", "2"])).is_none());
}

#[test]
fn a_well_formed_table_is_accepted() {
    assert!(is_well_formed_table(&rows(&["a", "ab", "b"]), &rows(&["", "x", "x"])));
    assert!(Replacer::new(rows(&["a", "ab", "b"]), rows(&["", "x", "x"])).is_some());
}
