use minigrep::{contains_str, search, search_case_insensitive};

#[test]
fn case_sensitive() {
    let query = "duct";
    let contents = "\
Rust:
safe, fast, productive.
Pick three.
Duct Tape.";

    assert_eq!(vec!["safe, fast, productive."], search(query, contents));
}

#[test]
fn case_insensitive() {
    let query = "rUsT";
    let contents = "\
Rust:
safe, fast, productive.
Pick Three.
Trust me.";

    assert_eq!(
        vec!["Rust:", "Trust me."],
        search_case_insensitive(query, contents)
    );
}

#[test]
fn one_result() {
    let query = "duct";
    let contents = "\
Rust:
safe, fast, productive.
Pick three.";

    assert_eq!(vec!["safe, fast, productive."], search(query, contents));
}

#[test]
fn empty_query_returns_every_line() {
    let contents = "alpha\n\nbeta\ngamma";
    assert_eq!(vec!["alpha", "", "beta", "gamma"], search("", contents));
    assert_eq!(
        vec!["alpha", "", "beta", "gamma"],
        search_case_insensitive("", contents)
    );
}

#[test]
fn empty_contents_returns_nothing() {
    assert!(search("x", "").is_empty());
    assert!(search("", "").is_empty());
    assert!(search_case_insensitive("x", "").is_empty());
    assert!(search_case_insensitive("", "").is_empty());
}

#[test]
fn no_match_returns_nothing() {
    assert!(search("zebra", "one\ntwo\nthree").is_empty());
    assert!(search_case_insensitive("ZEBRA", "one\ntwo\nthree").is_empty());
}

#[test]
fn trailing_line_feed_adds_no_line() {
    assert_eq!(vec!["a", "b"], search("", "a\nb\n"));
    assert_eq!(vec!["", ""], search("", "\n\n"));
}

#[test]
fn carriage_return_before_line_feed_is_dropped() {
    assert_eq!(vec!["one", "two"], search("", "one\r\ntwo\r\n"));
    assert_eq!(vec!["x\r", "y\r"], search("", "x\r\r\ny\r"));
    assert!(search("\r", "one\r\ntwo\r\n").is_empty());
}

#[test]
fn lines_keep_their_order_and_repeats() {
    assert_eq!(
        vec!["ab", "cab", "ab"],
        search("ab", "ab\nba\ncab\nab")
    );
}

#[test]
fn non_ascii_lines_are_matched_by_character() {
    assert_eq!(vec!["Grüße", "süß"], search("ß", "Grüße\nstrasse\nsüß"));
    assert_eq!(vec!["ÄRGER"], search_case_insensitive("ärg", "ÄRGER\nargument"));
}

#[test]
fn case_insensitive_query_is_lowered() {
    assert_eq!(vec!["rust"], search_case_insensitive("RUST", "rust\nruby"));
    assert!(search("RUST", "rust\nruby").is_empty());
}

#[test]
fn case_insensitive_keeps_line_text() {
    let contents = "HELLO World\nnothing\nhello";
    assert_eq!(
        vec!["HELLO World", "hello"],
        search_case_insensitive("Hello", contents)
    );
}

#[test]
fn searching_twice_gives_the_same_lines() {
    let contents = "Rust:\nsafe, fast, productive.\nPick Three.\nTrust me.";
    assert_eq!(search("st", contents), search("st", contents));
    assert_eq!(
        search_case_insensitive("ST", contents),
        search_case_insensitive("ST", contents)
    );
}

#[test]
fn contains_str_finds_runs() {
    assert!(contains_str("productive", "duct"));
    assert!(contains_str("duct", "duct"));
    assert!(contains_str("anything", ""));
    assert!(contains_str("", ""));
    assert!(!contains_str("", "a"));
    assert!(!contains_str("Duct", "duct"));
    assert!(!contains_str("duc", "duct"));
    assert!(!contains_str("d-u-c-t", "duct"));
    assert!(contains_str("aaab", "aab"));
}
