use minigrep::lines::lines;
use minigrep::text::line_contains;
use minigrep::{search, search_case_insensitive};

#[test]
fn case_sensitive() {
    let query = "duct";
    let contents = "\
Rust:
safe, fast, productive.
Pick three.
Duct tape.";

    assert_eq!(vec!["safe, fast, productive."], search(query, contents));
}

#[test]
fn case_insensitive() {
    let query = "rUsT";
    let contents = "\
Rust:
safe, fast, productive.
Pick three.
Trust me.";
    assert_eq!(
        vec!["Rust:", "Trust me."],
        search_case_insensitive(query, contents)
    );
}

#[test]
fn case_insensitive_without_trust_line() {
    let contents = "Rust:\nsafe, fast, productive.\nPick three.\nDuct tape.";
    assert_eq!(vec!["Rust:"], search_case_insensitive("rUsT", contents));
}

#[test]
fn case_sensitive_ignores_other_case() {
    let contents = "Rust:\nsafe, fast, productive.\nPick three.\nDuct tape.";
    assert_eq!(Vec::<&str>::new(), search("rUsT", contents));
    assert_eq!(vec!["Duct tape."], search("Duct", contents));
}

#[test]
fn case_insensitive_lowercases_the_line() {
    assert_eq!(vec!["RUST IS FAST"], search_case_insensitive("rust", "RUST IS FAST\nslow"));
    assert_eq!(vec!["ПРИВЕТ, мир"], search_case_insensitive("привет", "ПРИВЕТ, мир\nhello"));
}

#[test]
fn returned_lines_contain_query_and_others_do_not() {
    let contents = "alpha\nbeta\ngamma\nalphabet\ndelta";
    let found = search("alpha", contents);
    assert_eq!(vec!["alpha", "alphabet"], found);
    for line in contents.lines() {
        assert_eq!(line.contains("alpha"), found.contains(&line));
    }
}

#[test]
fn returned_lines_keep_their_order() {
    let contents = "c one\nb one\na one\nzero\nd one";
    assert_eq!(vec!["c one", "b one", "a one", "d one"], search("one", contents));
    assert_eq!(vec!["c one", "b one", "a one", "d one"], search_case_insensitive("ONE", contents));
}

#[test]
fn searching_twice_gives_the_same_lines() {
    let contents = "one\ntwo\nthree\nOne more";
    assert_eq!(search("one", contents), search("one", contents));
    assert_eq!(
        search_case_insensitive("one", contents),
        search_case_insensitive("one", contents)
    );
    assert_eq!(vec!["one", "One more"], search_case_insensitive("one", contents));
}

#[test]
fn empty_query_matches_every_line() {
    assert_eq!(vec!["a", "", "b"], search("", "a\n\nb\n"));
    assert_eq!(Vec::<&str>::new(), search("", ""));
}

#[test]
fn no_match_gives_empty_result() {
    assert_eq!(Vec::<&str>::new(), search("zzz", "abc\ndef"));
    assert_eq!(Vec::<&str>::new(), search_case_insensitive("ZZZ", "abc\ndef"));
}

#[test]
fn carriage_returns_before_newlines_are_dropped() {
    assert_eq!(vec!["one fish", "two fish"], search("fish", "one fish\r\ntwo fish\r\nred"));
}

#[test]
fn lines_agree_with_std() {
    let samples = [
        "",
        "\n",
        "\n\n",
        "a",
        "a\n",
        "a\nb",
        "a\r\nb\r\n",
        "a\rb\n",
        "tail\r",
        "\r\n",
        "\r",
        "x\n\r\n\ny",
        "héllo\nwörld ✓\n𝄞 clef",
    ];
    for s in samples.iter() {
        let expected: Vec<&str> = s.lines().collect();
        assert_eq!(expected, lines(s), "input {:?}", s);
    }
}

#[test]
fn lines_are_slices_of_the_contents() {
    let contents = String::from("first\r\nsecond\nthird");
    let found = lines(contents.as_str());
    assert_eq!(vec!["first", "second", "third"], found);
}

#[test]
fn line_contains_finds_substrings() {
    assert!(line_contains("safe, fast, productive.", "duct"));
    assert!(line_contains("abc", "abc"));
    assert!(line_contains("abc", ""));
    assert!(line_contains("", ""));
    assert!(line_contains("aaab", "aab"));
    assert!(line_contains("wörld ✓", "ld ✓"));
    assert!(!line_contains("abc", "abcd"));
    assert!(!line_contains("", "a"));
    assert!(!line_contains("Duct tape.", "duct"));
}
