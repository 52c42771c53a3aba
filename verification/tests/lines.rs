use minigrep::grep;
use minigrep::lines::split_first_line;

#[test]
fn first_line_ends_at_the_line_feed() {
    assert_eq!(Some(("one", "two\nthree")), split_first_line("one\ntwo\nthree"));
    assert_eq!(Some(("two", "three")), split_first_line("two\nthree"));
}

#[test]
fn last_line_needs_no_line_feed() {
    assert_eq!(Some(("three", "")), split_first_line("three"));
    assert_eq!(Some(("three", "")), split_first_line("three\n"));
}

#[test]
fn empty_text_has_no_first_line() {
    assert_eq!(None, split_first_line(""));
}

#[test]
fn empty_lines_are_lines() {
    assert_eq!(Some(("", "")), split_first_line("\n"));
    assert_eq!(Some(("", "\n")), split_first_line("\n\n"));
    assert_eq!(Some(("", "a")), split_first_line("\na"));
}

#[test]
fn lines_are_cut_between_characters_of_several_bytes() {
    assert_eq!(
        Some(("gr\u{fc}n", "\u{20ac}\n\u{1f600}")),
        split_first_line("gr\u{fc}n\n\u{20ac}\n\u{1f600}")
    );
    assert_eq!(
        Some(("\u{20ac}", "\u{1f600}")),
        split_first_line("\u{20ac}\n\u{1f600}")
    );
    assert_eq!(Some(("\u{1f600}", "")), split_first_line("\u{1f600}"));
}

#[test]
fn text_splits_into_all_its_lines() {
    assert_eq!(vec!["a", "b", "c"], grep("", "a\nb\nc"));
    assert_eq!(vec!["a", "b", "c"], grep("", "a\nb\nc\n"));
    assert_eq!(vec!["a", "", "c", ""], grep("", "a\n\nc\n\n"));
    assert_eq!(vec![""], grep("", "\n"));
    assert_eq!(vec![" "], grep("", " "));
}

#[test]
fn only_the_line_feed_ends_a_line() {
    assert_eq!(vec!["a\r", "b"], grep("", "a\r\nb"));
    assert_eq!(vec!["a\rb"], grep("", "a\rb"));
    assert_eq!(vec!["a\u{2028}b"], grep("", "a\u{2028}b"));
}
