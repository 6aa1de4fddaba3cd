use minigrep_rust::search::{search, search_case_insensitive};
use minigrep_rust::text::{chars_of, contains, line_spans};

#[test]
fn case_sensitive() {
    let query = "duct";
    let contents = "\
Rust:
safe, fast, productive.
Pick three.
Duct tape.";

    assert_eq!(vec!["safe, fast, productive."], search(query, contents));
}

#[test]
fn case_insensitive() {
    let query = "rUsT";
    let contents = "\
Rust:
safe, fast, productive.
Pick three.
Trust me.";

    assert_eq!(
        vec!["Rust:", "Trust me."],
        search_case_insensitive(query, contents)
    );
}

#[test]
fn empty_query_keeps_every_line() {
    let contents = "one\ntwo\n\nthree";
    assert_eq!(vec!["one", "two", "", "three"], search("", contents));
    assert_eq!(
        vec!["one", "two", "", "three"],
        search_case_insensitive("", contents)
    );
}

#[test]
fn empty_contents_give_nothing() {
    assert!(search("x", "").is_empty());
    assert!(search("", "").is_empty());
    assert!(search_case_insensitive("x", "").is_empty());
    assert!(search_case_insensitive("", "").is_empty());
}

#[test]
fn no_match_gives_nothing() {
    assert!(search("zebra", "apple\nbanana").is_empty());
    assert!(search_case_insensitive("ZEBRA", "apple\nbanana").is_empty());
}

#[test]
fn duplicate_lines_each_returned() {
    let contents = "ab\nxy\nab";
    assert_eq!(vec!["ab", "ab"], search("a", contents));
}

#[test]
fn trailing_newline_adds_no_line() {
    assert_eq!(vec!["a", "b"], search("", "a\nb\n"));
    assert_eq!(vec![""], search("", "\n"));
}

#[test]
fn carriage_return_before_newline_is_dropped() {
    assert_eq!(vec!["one", "two"], search("o", "one\r\ntwo\r\n"));
    assert_eq!(vec!["end\r"], search("end", "end\r"));
}

#[test]
fn case_insensitive_covers_exact_matches() {
    let contents = "Rust:\nsafe, fast, productive.\nPick three.\nTrust me.";
    let exact = search("ust", contents);
    let folded = search_case_insensitive("ust", contents);
    assert_eq!(vec!["Rust:", "Trust me."], exact.clone());
    for line in exact {
        assert!(folded.contains(&line));
    }
}

#[test]
fn case_insensitive_lowers_non_ascii() {
    let contents = "ÄPFEL\nBirnen\näpfel";
    assert_eq!(vec!["ÄPFEL", "äpfel"], search_case_insensitive("Äpfel", contents));
    assert_eq!(vec!["äpfel"], search("äpfel", contents));
}

#[test]
fn contains_finds_parts() {
    assert!(contains("productive", "duct"));
    assert!(contains("abc", ""));
    assert!(contains("", ""));
    assert!(!contains("", "a"));
    assert!(!contains("Duct tape.", "duct"));
    assert!(contains("aab", "ab"));
    assert!(!contains("ab", "abc"));
}

#[test]
fn line_spans_cover_lines() {
    let text = chars_of("ab\r\n\ncd");
    assert_eq!(vec![(0, 2), (4, 4), (5, 7)], line_spans(&text));
    assert_eq!(vec!['x', 'é'], chars_of("xé"));
}
