use page_resolver::normalize::fold_char_x;
use page_resolver::normalize::keep_char_x;
use page_resolver::normalize::normalize;
use page_resolver::normalize::normalize_chars;

fn chars(s: &str) -> Vec<char> {
    s.chars().collect()
}

#[test]
fn normalize_folds_case_and_collapses_noise() {
    assert_eq!(normalize("  Hello,   WORLD!! "), chars("hello world"));
    assert_eq!(normalize("Per--sonal\tcom_puter 42"), chars("per sonal com puter 42"));
}

#[test]
fn normalize_is_total_on_empty_and_noise_only_input() {
    assert_eq!(normalize(""), chars(""));
    assert_eq!(normalize(" ,.;!?\t\n"), chars(""));
    assert_eq!(normalize("\u{e9}\u{2014}\u{201c}"), chars(""));
}

#[test]
fn normalize_twice_changes_nothing() {
    let once = normalize("The  Quick,  BROWN fox: 7!");
    let twice = normalize_chars(&once);
    assert_eq!(twice, once);
    assert_eq!(once, chars("the quick brown fox 7"));

    let empty_once = normalize("  --  ");
    assert_eq!(normalize_chars(&empty_once), empty_once);
}

#[test]
fn fold_and_keep_behave_per_character() {
    assert_eq!(fold_char_x('A'), 'a');
    assert_eq!(fold_char_x('Z'), 'z');
    assert_eq!(fold_char_x('a'), 'a');
    assert_eq!(fold_char_x('7'), '7');
    assert_eq!(fold_char_x(';'), ';');
    assert!(keep_char_x('a'));
    assert!(keep_char_x('z'));
    assert!(keep_char_x('0'));
    assert!(keep_char_x('9'));
    assert!(!keep_char_x('A'));
    assert!(!keep_char_x(' '));
    assert!(!keep_char_x('-'));
}
