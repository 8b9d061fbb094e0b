use minigrep::run_search;
use minigrep::search;
use minigrep::search_case_insensitive;
use minigrep::Config;

#[test]
fn case_sensitive() {
    let query = "duct";
    let contents = "Rust:\nsafe, fast, productive.\nPick three.\nDuct tape.";

    assert_eq!(vec!["safe, fast, productive."], search(query, contents));
}

#[test]
fn case_insensitive() {
    let query = "rUsT";
    let contents = "Rust:\nsafe, fast, productive.\nPick three.\nTrust me.";

    assert_eq!(vec!["Rust:", "Trust me."], search_case_insensitive(query, contents));
}

#[test]
fn empty_query_matches_every_line_case_sensitive() {
    let contents = "Rust:\nsafe, fast, productive.\nPick three.";
    assert_eq!(
        vec!["Rust:", "safe, fast, productive.", "Pick three."],
        search("", contents)
    );
}

#[test]
fn empty_query_matches_every_line_case_insensitive() {
    let contents = "Rust:\nsafe, fast, productive.\nPick three.";
    assert_eq!(
        vec!["Rust:", "safe, fast, productive.", "Pick three."],
        search_case_insensitive("", contents)
    );
}

#[test]
fn no_matching_line_gives_empty_result() {
    let contents = "one\ntwo\nthree";
    assert!(search("four", contents).is_empty());
    assert!(search_case_insensitive("four", contents).is_empty());
}

#[test]
fn empty_contents_give_empty_result() {
    assert!(search("a", "").is_empty());
    assert!(search("", "").is_empty());
}

#[test]
fn result_keeps_file_line_order() {
    let contents = "alpha\nbeta\ngamma\ndelta";
    assert_eq!(vec!["alpha", "delta"], search("l", contents));
}

#[test]
fn line_with_repeated_occurrences_appears_once() {
    let contents = "banana\nkiwi";
    assert_eq!(vec!["banana"], search("an", contents));
}

#[test]
fn trailing_newline_adds_no_empty_line() {
    let contents = "one\ntwo\n";
    assert_eq!(vec!["one", "two"], search("", contents));
}

#[test]
fn carriage_return_newline_counts_as_one_terminator() {
    let contents = "one\r\ntwo\r\nthree";
    assert_eq!(vec!["one", "two", "three"], search("", contents));
    assert_eq!(vec!["two"], search("two", contents));
}

#[test]
fn case_sensitive_search_keeps_exact_spelling_only() {
    let contents = "Duct tape.\nduct tape.";
    assert_eq!(vec!["duct tape."], search("duct", contents));
}

#[test]
fn case_insensitive_search_returns_original_spelling() {
    let contents = "Duct tape.\nduct tape.";
    assert_eq!(vec!["Duct tape.", "duct tape."], search_case_insensitive("DUCT", contents));
}

#[test]
fn run_search_dispatches_on_case_sensitivity() {
    let contents = "Rust:\nsafe, fast, productive.\nPick three.\nTrust me.";
    let sensitive = Config {
        query: String::from("rUsT"),
        filename: String::from("poem.txt"),
        case_sensitive: true,
    };
    let insensitive = Config {
        query: String::from("rUsT"),
        filename: String::from("poem.txt"),
        case_sensitive: false,
    };
    assert!(run_search(&sensitive, contents).is_empty());
    assert_eq!(vec!["Rust:", "Trust me."], run_search(&insensitive, contents));
}
