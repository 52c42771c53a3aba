use minigrep::config::{variable_is_set, CASE_INSENSITIVE};
use minigrep::{Config, MissingArgument};

fn strings(words: &[&str]) -> Vec<String> {
    words.iter().map(|word| word.to_string()).collect()
}

fn variables(pairs: &[(&str, &str)]) -> Vec<(String, String)> {
    pairs
        .iter()
        .map(|(name, value)| (name.to_string(), value.to_string()))
        .collect()
}

#[test]
fn two_arguments_make_a_configuration() {
    let args = strings(&["minigrep", "duct", "poem.txt"]);
    let env = variables(&[("HOME", "/root")]);
    let config = Config::new(&args, &env).unwrap();
    assert_eq!(config.search, "duct");
    assert_eq!(config.filename, "poem.txt");
    assert!(config.case_sensitive);
}

#[test]
fn further_arguments_are_ignored() {
    let args = strings(&["minigrep", "duct", "poem.txt", "more", "still more"]);
    let config = Config::new(&args, &[]).unwrap();
    assert_eq!(
        config,
        Config {
            search: "duct".to_string(),
            filename: "poem.txt".to_string(),
            case_sensitive: true,
        }
    );
}

#[test]
fn search_term_is_missed_first() {
    assert_eq!(Err(MissingArgument::Search), Config::new(&[], &[]));
    assert_eq!(
        Err(MissingArgument::Search),
        Config::new(&strings(&["minigrep"]), &[])
    );
}

#[test]
fn filename_is_missed_when_the_term_is_there() {
    assert_eq!(
        Err(MissingArgument::Filename),
        Config::new(&strings(&["minigrep", "duct"]), &[])
    );
}

#[test]
fn empty_argument_is_a_missing_one() {
    assert_eq!(
        Err(MissingArgument::Search),
        Config::new(&strings(&["minigrep", "", "poem.txt"]), &[])
    );
    assert_eq!(
        Err(MissingArgument::Filename),
        Config::new(&strings(&["minigrep", "duct", ""]), &[])
    );
    assert_eq!(
        Err(MissingArgument::Search),
        Config::new(&strings(&["minigrep", "", ""]), &[])
    );
}

#[test]
fn missing_arguments_are_reported_whatever_the_environment() {
    let env = variables(&[("CASE_INSENSITIVE", "1")]);
    assert_eq!(
        Err(MissingArgument::Search),
        Config::new(&strings(&["minigrep"]), &env)
    );
    assert_eq!(
        Err(MissingArgument::Filename),
        Config::new(&strings(&["minigrep", "duct"]), &env)
    );
}

#[test]
fn variable_in_the_environment_turns_case_off() {
    let args = strings(&["minigrep", "duct", "poem.txt"]);
    for value in ["1", "0", "", "false", "no"] {
        let env = variables(&[("HOME", "/root"), ("CASE_INSENSITIVE", value)]);
        let config = Config::new(&args, &env).unwrap();
        assert!(!config.case_sensitive);
        assert_eq!(config.search, "duct");
        assert_eq!(config.filename, "poem.txt");
    }
}

#[test]
fn other_variables_leave_case_on() {
    let args = strings(&["minigrep", "duct", "poem.txt"]);
    let env = variables(&[
        ("case_insensitive", "1"),
        ("CASE_INSENSITIVE_", "1"),
        ("CASE_SENSITIVE", "CASE_INSENSITIVE"),
        ("", "CASE_INSENSITIVE"),
    ]);
    assert!(Config::new(&args, &env).unwrap().case_sensitive);
    assert!(Config::new(&args, &[]).unwrap().case_sensitive);
}

#[test]
fn variable_is_found_by_its_name_alone() {
    let env = variables(&[("PATH", "/bin"), ("LANG", ""), ("TERM", "xterm")]);
    assert!(variable_is_set(&env, "PATH"));
    assert!(variable_is_set(&env, "LANG"));
    assert!(variable_is_set(&env, "TERM"));
    assert!(!variable_is_set(&env, "xterm"));
    assert!(!variable_is_set(&env, "path"));
    assert!(!variable_is_set(&env, ""));
    assert!(!variable_is_set(&[], "PATH"));
    assert_eq!(CASE_INSENSITIVE, "CASE_INSENSITIVE");
}

#[test]
fn each_missing_argument_has_its_words() {
    assert_eq!(
        MissingArgument::Search.message(),
        "Didn't get a search string"
    );
    assert_eq!(MissingArgument::Filename.message(), "Didn't get a filename");
}
