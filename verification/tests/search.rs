use minigrep::search_case_insensitive;
use minigrep::search_case_sensitive;

#[test]
fn case_sensitive() {
    let query = "duct";
    let contents = "\
Rust:
safe, fast, productive.
Pick three.";

    assert_eq!(vec!["safe, fast, productive."], search_case_sensitive(query, contents));
}

#[test]
fn case_insensitive() {
    let query = "RUSt";
    let contents = "\
Rust:
safe, fast, productive.
Pick three.
Trust me.";

    assert_eq!(vec!["Rust:", "Trust me."], search_case_insensitive(query, contents));
}

#[test]
fn empty_query_returns_every_line_exact() {
    let contents = "\
Rust:
safe, fast, productive.
Pick three.";

    assert_eq!(
        vec!["Rust:", "safe, fast, productive.", "Pick three."],
        search_case_sensitive("", contents)
    );
}

#[test]
fn empty_query_returns_every_line_fold() {
    let contents = "\
Rust:
safe, fast, productive.
Pick three.";

    assert_eq!(
        vec!["Rust:", "safe, fast, productive.", "Pick three."],
        search_case_insensitive("", contents)
    );
}

#[test]
fn empty_body_yields_no_matches() {
    assert!(search_case_sensitive("x", "").is_empty());
    assert!(search_case_insensitive("x", "").is_empty());
}

#[test]
fn query_longer_than_any_line_yields_no_matches() {
    let contents = "one\ntwo\nthree";
    assert!(search_case_sensitive("three and more", contents).is_empty());
    assert!(search_case_insensitive("three and more", contents).is_empty());
}

#[test]
fn query_equal_to_a_whole_line_matches_it() {
    let contents = "one\ntwo\nthree";
    assert_eq!(vec!["two"], search_case_sensitive("two", contents));
}

#[test]
fn duplicate_lines_match_once_per_occurrence() {
    let contents = "echo\nother\necho";
    assert_eq!(vec!["echo", "echo"], search_case_sensitive("echo", contents));
}

#[test]
fn carriage_returns_are_not_part_of_lines() {
    let contents = "one\r\ntwo\r\n";
    assert_eq!(vec!["one", "two"], search_case_sensitive("o", contents));
}

#[test]
fn trailing_newline_adds_no_empty_line() {
    let contents = "one\ntwo\n";
    assert_eq!(vec!["one", "two"], search_case_sensitive("", contents));
}

#[test]
fn exact_matches_appear_among_fold_matches_in_order() {
    let query = "Rust";
    let contents = "\
Rust:
trust me.
a Rusty nail
RUST";

    let exact = search_case_sensitive(query, contents);
    let fold = search_case_insensitive(query, contents);
    assert_eq!(vec!["Rust:", "a Rusty nail"], exact);
    assert_eq!(vec!["Rust:", "trust me.", "a Rusty nail", "RUST"], fold);
    let mut next: usize = 0;
    for line in &exact {
        while fold[next] != *line {
            next += 1;
        }
        next += 1;
    }
}

#[test]
fn folding_reaches_beyond_ascii() {
    assert_eq!(vec!["ä"], search_case_insensitive("Ä", "ä"));
    assert_eq!(
        vec!["ÄPFEL UND BIRNEN"],
        search_case_insensitive("äpfel", "ÄPFEL UND BIRNEN\nKIRSCHEN")
    );
    assert!(search_case_sensitive("Ä", "ä").is_empty());
}

#[test]
fn repeated_searches_agree() {
    let query = "prod";
    let contents = "\
Rust:
safe, fast, productive.
Pick three.";

    assert_eq!(
        search_case_sensitive(query, contents),
        search_case_sensitive(query, contents)
    );
    assert_eq!(
        search_case_insensitive(query, contents),
        search_case_insensitive(query, contents)
    );
}
