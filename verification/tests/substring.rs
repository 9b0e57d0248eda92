use mini_grep::substring::{bytes_contain, contains, same_text};

#[test]
fn needle_is_found_at_start_middle_and_end() {
    assert!(contains("haystack", "hay"));
    assert!(contains("haystack", "yst"));
    assert!(contains("haystack", "stack"));
    assert!(contains("haystack", "haystack"));
}

#[test]
fn needle_that_is_absent_is_not_found() {
    assert!(!contains("haystack", "needle"));
    assert!(!contains("haystack", "hays tack"));
    assert!(!contains("haystack", "haystacks"));
    assert!(!contains("hay", "haystack"));
    assert!(!contains("", "a"));
}

#[test]
fn empty_needle_is_found_everywhere() {
    assert!(contains("haystack", ""));
    assert!(contains("", ""));
}

#[test]
fn containment_tells_case_apart() {
    assert!(!contains("Rust", "rust"));
    assert!(contains("rust", "rust"));
}

#[test]
fn needle_after_a_failed_start_is_found() {
    assert!(contains("aaab", "aab"));
    assert!(contains("abababc", "ababc"));
}

#[test]
fn containment_counts_characters_of_several_bytes() {
    assert!(contains("caf\u{e9} au lait", "f\u{e9} "));
    assert!(contains("\u{65e5}\u{672c}\u{8a9e}", "\u{672c}"));
    assert!(!contains("\u{65e5}\u{672c}\u{8a9e}", "\u{8a9e}\u{672c}"));
    assert!(!contains("\u{e9}", "\u{e8}"));
}

#[test]
fn bytes_are_found_in_bytes() {
    assert!(bytes_contain(&[1, 2, 3, 4], &[2, 3]));
    assert!(bytes_contain(&[1, 2, 3, 4], &[]));
    assert!(bytes_contain(&[], &[]));
    assert!(!bytes_contain(&[1, 2, 3, 4], &[3, 2]));
    assert!(!bytes_contain(&[1, 2], &[1, 2, 3]));
}

#[test]
fn texts_are_the_same_when_every_character_is() {
    assert!(same_text("CASE_INSENSITIVE", "CASE_INSENSITIVE"));
    assert!(same_text("", ""));
    assert!(!same_text("CASE_INSENSITIVE", "case_insensitive"));
    assert!(!same_text("CASE", "CASE_INSENSITIVE"));
    assert!(!same_text("abc", "abd"));
    assert!(same_text("\u{e9}t\u{e9}", "\u{e9}t\u{e9}"));
}
