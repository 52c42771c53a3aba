use minigrep::{grep, grep_case_insensitive, run, Config};

#[test]
fn case_sensitive() {
    let search = "duct";
    let contents = "\
Rust:
safe, fast, productive.
Pick three.
Duct tape.";

    assert_eq!(vec!["safe, fast, productive."], grep(search, contents));
}

#[test]
fn case_insensitive() {
    let search = "rust";
    let contents = "\
Rust:
safe, fast, productive.
Pick three.
Trust me.";

    assert_eq!(
        vec!["Rust:", "Trust me."],
        grep_case_insensitive(search, contents)
    );
}

#[test]
fn found_lines_keep_their_order_and_their_repeats() {
    let contents = "beta\nalpha\nbeta\ngamma\nalphabet\n";
    assert_eq!(vec!["beta", "beta", "alphabet"], grep("bet", contents));
    assert_eq!(vec!["alpha", "alphabet"], grep("alpha", contents));
    assert_eq!(Vec::<&str>::new(), grep("delta", contents));
}

#[test]
fn case_counts_in_the_plain_search() {
    let contents = "Rust\nrust\nRUST";
    assert_eq!(vec!["rust"], grep("rust", contents));
    assert_eq!(vec!["Rust"], grep("Rust", contents));
    assert_eq!(vec!["RUST"], grep("RUST", contents));
}

#[test]
fn term_in_upper_case_finds_lines_in_lower_case() {
    let contents = "rust\nRust\ndust";
    assert_eq!(vec!["rust", "Rust"], grep_case_insensitive("RUST", contents));
    assert_eq!(vec!["rust", "Rust"], grep_case_insensitive("rUsT", contents));
}

#[test]
fn lines_come_back_as_they_were_written() {
    let contents = "The QUICK brown fox\nthe lazy dog\nQuickly now";
    assert_eq!(
        vec!["The QUICK brown fox", "Quickly now"],
        grep_case_insensitive("quick", contents)
    );
}

#[test]
fn case_is_ignored_beyond_ascii() {
    let contents = "\u{c4}pfel und Birnen\nkeine \u{e4}pfel\nBananen";
    assert_eq!(
        vec!["\u{c4}pfel und Birnen", "keine \u{e4}pfel"],
        grep_case_insensitive("\u{c4}PFEL", contents)
    );
    assert_eq!(vec!["keine \u{e4}pfel"], grep("\u{e4}pfel", contents));
}

#[test]
fn empty_term_finds_every_line() {
    let contents = "one\n\nthree\nOne";
    let all = vec!["one", "", "three", "One"];
    assert_eq!(all, grep("", contents));
    assert_eq!(all, grep_case_insensitive("", contents));
}

#[test]
fn empty_contents_hold_nothing() {
    assert_eq!(Vec::<&str>::new(), grep("a", ""));
    assert_eq!(Vec::<&str>::new(), grep_case_insensitive("a", ""));
    assert_eq!(Vec::<&str>::new(), grep("", ""));
    assert_eq!(Vec::<&str>::new(), grep_case_insensitive("", ""));
}

#[test]
fn a_second_run_finds_the_same() {
    let contents = "Rust:\nsafe, fast, productive.\nPick three.\nTrust me.";
    assert_eq!(grep("rust", contents), grep("rust", contents));
    assert_eq!(
        grep_case_insensitive("rust", contents),
        grep_case_insensitive("rust", contents)
    );
}

#[test]
fn a_term_is_not_found_across_lines() {
    assert_eq!(Vec::<&str>::new(), grep("a\nb", "a\nb"));
    assert_eq!(Vec::<&str>::new(), grep("\n", "a\nb\n"));
    assert_eq!(Vec::<&str>::new(), grep("ab", "a\nb"));
}

fn config(search: &str, case_sensitive: bool) -> Config {
    Config {
        search: search.to_string(),
        filename: "poem.txt".to_string(),
        case_sensitive,
    }
}

#[test]
fn run_searches_as_the_configuration_says() {
    let contents = "Rust:\nsafe, fast, productive.\nPick three.\nTrust me.";
    assert_eq!(vec!["Trust me."], run(&config("rust", true), contents));
    assert_eq!(
        vec!["Rust:", "Trust me."],
        run(&config("rust", false), contents)
    );
    assert_eq!(
        vec!["safe, fast, productive."],
        run(&config("duct", true), contents)
    );
    assert_eq!(Vec::<&str>::new(), run(&config("DUCT", true), contents));
    assert_eq!(
        vec!["safe, fast, productive."],
        run(&config("DUCT", false), contents)
    );
}
