use mini_grep::lines::split_first_line;
use mini_grep::search;

#[test]
fn empty_text_has_no_first_line() {
    assert_eq!(split_first_line(""), None);
}

#[test]
fn text_without_line_feed_is_one_line() {
    assert_eq!(split_first_line("only"), Some(("only", "")));
}

#[test]
fn line_feed_ends_the_first_line() {
    assert_eq!(split_first_line("one\ntwo\nthree"), Some(("one", "two\nthree")));
    assert_eq!(split_first_line("one\n"), Some(("one", "")));
    assert_eq!(split_first_line("\nrest"), Some(("", "rest")));
    assert_eq!(split_first_line("\n"), Some(("", "")));
}

#[test]
fn carriage_return_before_line_feed_is_dropped() {
    assert_eq!(split_first_line("one\r\ntwo"), Some(("one", "two")));
    assert_eq!(split_first_line("\r\ntwo"), Some(("", "two")));
}

#[test]
fn only_one_carriage_return_is_dropped() {
    assert_eq!(split_first_line("one\r\r\ntwo"), Some(("one\r", "two")));
}

#[test]
fn carriage_return_elsewhere_is_kept() {
    assert_eq!(split_first_line("a\rb\nc"), Some(("a\rb", "c")));
    assert_eq!(split_first_line("last\r"), Some(("last\r", "")));
}

#[test]
fn characters_of_several_bytes_are_not_cut() {
    let text = "gr\u{fc}\u{df}e \u{1f600}\r\n\u{4e16}\u{754c}";
    assert_eq!(
        split_first_line(text),
        Some(("gr\u{fc}\u{df}e \u{1f600}", "\u{4e16}\u{754c}"))
    );
}

#[test]
fn final_line_feed_opens_no_further_line() {
    assert_eq!(search("", "a\nb\n"), vec!["a", "b"]);
    assert_eq!(search("", "a\nb"), vec!["a", "b"]);
    assert_eq!(search("", "a\nb\n\n"), vec!["a", "b", ""]);
    assert_eq!(search("", "\n"), vec![""]);
}

#[test]
fn lines_are_those_of_the_standard_library() {
    let bodies = [
        "",
        "\n",
        "\r",
        "\r\n",
        "\n\n",
        "a",
        "a\n",
        "a\r\n",
        "a\n\r",
        "a\r\nb\rc\n\rd\r\n\r\n",
        "foo\nbar\n\r\nbaz\r",
        "\u{e9}\n\u{20ac}\r\n\u{1f600}",
    ];
    for body in bodies {
        let expected: Vec<&str> = body.lines().collect();
        assert_eq!(search("", body), expected);
    }
}
