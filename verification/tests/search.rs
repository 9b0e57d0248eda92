use mini_grep::search::fold_case;
use mini_grep::{search, search_case_insensitive};

#[test]
fn onex_result() {
    let query = "rust";
    let content = "\
        rust
        ";
    assert_eq!(vec!["rust"], search(query, content))
}

#[test]
fn case_insensitive() {
    let query = "rust";
    let content = "\
        Rust
        ";
    assert_eq!(vec!["Rust"], search_case_insensitive(query, content))
}

#[test]
fn exact_search_finds_the_line_that_is_the_query() {
    assert_eq!(search("rust", "rust\n"), vec!["rust"]);
}

#[test]
fn exact_search_tells_upper_case_from_lower_case() {
    let nothing: Vec<&str> = Vec::new();
    assert_eq!(search("rust", "Rust\n"), nothing);
    assert_eq!(search_case_insensitive("rust", "Rust\n"), vec!["Rust"]);
}

#[test]
fn exact_search_returns_the_lines_with_the_query_and_no_others() {
    let body = "Rust:\nsafe, fast, productive.\nPick three.\nDuct tape.";
    assert_eq!(search("duct", body), vec!["safe, fast, productive."]);
    assert_eq!(search("Duct", body), vec!["Duct tape."]);
    assert_eq!(
        search("t", body),
        vec!["Rust:", "safe, fast, productive.", "Pick three.", "Duct tape."]
    );
    let nothing: Vec<&str> = Vec::new();
    assert_eq!(search("monomorphization", body), nothing);
}

#[test]
fn every_returned_line_holds_the_query_and_no_other_line_does() {
    let body = "alpha\nbeta\ngamma\ndelta\nalphabet\n";
    let query = "alpha";
    let found = search(query, body);
    for line in &found {
        assert!(line.contains(query));
    }
    for line in body.lines() {
        if !found.contains(&line) {
            assert!(!line.contains(query));
        }
    }
    assert_eq!(found, vec!["alpha", "alphabet"]);
}

#[test]
fn folded_search_ignores_case_on_both_sides() {
    let body = "Rust:\nsafe, fast, productive.\nPick three.\nTrust me.";
    assert_eq!(search_case_insensitive("rUsT", body), vec!["Rust:", "Trust me."]);
    assert_eq!(search_case_insensitive("RUST", body), vec!["Rust:", "Trust me."]);
    assert_eq!(search("rUsT", body), Vec::<&str>::new());
}

#[test]
fn folded_search_returns_lines_as_they_stand() {
    assert_eq!(search_case_insensitive("hello", "HeLLo World\n"), vec!["HeLLo World"]);
}

#[test]
fn folded_search_returns_what_exact_search_returns_and_more() {
    let body = "one Fish\ntwo fish\nred FISH\nblue bird\n";
    let exact = search("fish", body);
    let folded = search_case_insensitive("fish", body);
    assert_eq!(exact, vec!["two fish"]);
    assert_eq!(folded, vec!["one Fish", "two fish", "red FISH"]);
    for line in &exact {
        assert!(folded.contains(line));
    }
}

#[test]
fn folding_a_capital_sigma_depends_on_its_place() {
    // A capital sigma at the end of a word folds to the final form of the
    // small letter, a capital sigma alone to the other form.
    let body = "\u{391}\u{3a3}";
    assert_eq!(fold_case(body), "\u{3b1}\u{3c2}");
    assert_eq!(fold_case("\u{3a3}"), "\u{3c3}");
    assert_eq!(search("\u{3a3}", body), vec![body]);
    assert_eq!(search_case_insensitive("\u{3a3}", body), Vec::<&str>::new());
}

#[test]
fn empty_query_returns_every_line() {
    let body = "first\n\nthird\r\nlast";
    let all = vec!["first", "", "third", "last"];
    assert_eq!(search("", body), all);
    assert_eq!(search_case_insensitive("", body), all);
}

#[test]
fn empty_body_has_no_line() {
    let nothing: Vec<&str> = Vec::new();
    assert_eq!(search("", ""), nothing);
    assert_eq!(search_case_insensitive("", ""), nothing);
    assert_eq!(search("a", ""), nothing);
}

#[test]
fn lines_come_back_in_the_order_of_the_body() {
    let body = "b1\na\nb2\nc\nb3\n";
    assert_eq!(search("b", body), vec!["b1", "b2", "b3"]);
    assert_eq!(search_case_insensitive("B", body), vec!["b1", "b2", "b3"]);
}

#[test]
fn a_line_that_stands_twice_comes_back_twice() {
    let body = "same\nother\nsame\nsame\n";
    assert_eq!(search("same", body), vec!["same", "same", "same"]);
    assert_eq!(search_case_insensitive("SAME", body), vec!["same", "same", "same"]);
}

#[test]
fn returned_lines_are_slices_of_the_body() {
    let body = String::from("zero\none\ntwo\n");
    let found = search("o", &body);
    assert_eq!(found, vec!["zero", "one", "two"]);
    let start = body.as_ptr() as usize;
    assert_eq!(found[0].as_ptr() as usize, start);
    assert_eq!(found[1].as_ptr() as usize, start + 5);
    assert_eq!(found[2].as_ptr() as usize, start + 9);
}

#[test]
fn query_is_not_matched_across_lines() {
    assert_eq!(search("ab", "a\nb\n"), Vec::<&str>::new());
    assert_eq!(search("a\nb", "a\nb\n"), Vec::<&str>::new());
}

#[test]
fn query_of_several_bytes_per_character_is_found() {
    let body = "na\u{ef}ve caf\u{e9}\nplain cafe\n\u{65e5}\u{672c}\u{8a9e} text\n";
    assert_eq!(search("caf\u{e9}", body), vec!["na\u{ef}ve caf\u{e9}"]);
    assert_eq!(search("\u{672c}", body), vec!["\u{65e5}\u{672c}\u{8a9e} text"]);
    assert_eq!(search_case_insensitive("CAF\u{c9}", body), vec!["na\u{ef}ve caf\u{e9}"]);
}

#[test]
fn folding_lowers_letters_and_keeps_the_rest() {
    assert_eq!(fold_case("Rust"), "rust");
    assert_eq!(fold_case("HELLO, World 42!"), "hello, world 42!");
    assert_eq!(fold_case(""), "");
    assert_eq!(fold_case("\u{c9}COLE"), "\u{e9}cole");
}

#[test]
fn searches_agree_with_the_standard_library_on_a_mixed_body() {
    let body = "The quick\r\nbrown FOX\n\njumps over\rthe lazy dog\r\n\r\nEND";
    for query in ["", "o", "O", "the", "THE", "\r", "x", "END", "quick\r"] {
        let exact: Vec<&str> = body.lines().filter(|line| line.contains(query)).collect();
        let folded: Vec<&str> = body
            .lines()
            .filter(|line| line.to_lowercase().contains(&query.to_lowercase()))
            .collect();
        assert_eq!(search(query, body), exact);
        assert_eq!(search_case_insensitive(query, body), folded);
    }
}
