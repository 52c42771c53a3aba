//! The search itself: the lines of a text that contain a term.

use vstd::prelude::*;
use crate::case::{lowercase, lowercase_of};
use crate::config::Config;
use crate::lines::{after_first_line, first_line, lines, split_first_line};
use crate::substring::{contains, is_substring, occurs_at};

verus! {

/// `line` is a match for `search`: it contains `search`, as the two are
/// written where case counts, in their lowercase forms where it does not.
pub open spec fn is_match(search: Seq<char>, line: Seq<char>, case_sensitive: bool) -> bool {
    if case_sensitive {
        is_substring(search, line)
    } else {
        is_substring(lowercase(search), lowercase(line))
    }
}

/// The test that a line is a match for `search`.
pub open spec fn match_test(search: Seq<char>, case_sensitive: bool) -> spec_fn(Seq<char>) -> bool {
    |line: Seq<char>| is_match(search, line, case_sensitive)
}

/// The lines of `contents` that are a match for `search`, as they are written
/// in `contents` and in the order in which they stand there. A line that
/// stands there twice is found twice.
pub open spec fn matching_lines(
    search: Seq<char>,
    contents: Seq<char>,
    case_sensitive: bool,
) -> Seq<Seq<char>> {
    lines(contents).filter(match_test(search, case_sensitive))
}

/// The texts of a list of string slices.
pub open spec fn texts(found: Seq<&str>) -> Seq<Seq<char>> {
    found.map_values(|line: &str| line@)
}

/// `found` is taken from `items` at `places`, which rise: it holds some of the
/// elements of `items`, in the order of `items`.
pub open spec fn taken_at<T>(found: Seq<T>, items: Seq<T>, places: Seq<int>) -> bool {
    &&& places.len() == found.len()
    &&& forall|i: int|
        0 <= i < places.len() ==> 0 <= #[trigger] places[i] < items.len() && items[places[i]]
            == found[i]
    &&& forall|i: int, j: int|
        0 <= i < j < places.len() ==> #[trigger] places[i] < #[trigger] places[j]
}

/// The lines of `contents` that contain `search`, letter for letter.
pub fn grep<'a>(search: &str, contents: &'a str) -> (found: Vec<&'a str>)
    ensures
        texts(found@) == matching_lines(search@, contents@, true),
{
    let mut found: Vec<&'a str> = Vec::new();
    let mut rest: &'a str = contents;
    assert(texts(found@) =~= Seq::empty());
    loop
        invariant
            texts(found@) + matching_lines(search@, rest@, true) == matching_lines(
                search@,
                contents@,
                true,
            ),
        ensures
            texts(found@) == matching_lines(search@, contents@, true),
        decreases rest@.len(),
    {
        match split_first_line(rest) {
            Some((line, after)) => {
                proof {
                    lemma_matching_lines_unfold(search@, rest@, true);
                }
                let ghost before = texts(found@);
                if contains(line, search) {
                    found.push(line);
                    assert(texts(found@) =~= before + seq![line@]);
                }
                rest = after;
            },
            None => {
                assert(matching_lines(search@, rest@, true) =~= Seq::empty());
                break ;
            },
        }
    }
    found
}

/// The lines of `contents` whose lowercase form contains the lowercase form of
/// `search`. The lines come back as `contents` writes them.
pub fn grep_case_insensitive<'a>(search: &str, contents: &'a str) -> (found: Vec<&'a str>)
    ensures
        texts(found@) == matching_lines(search@, contents@, false),
{
    let term: String = lowercase_of(search);
    let mut found: Vec<&'a str> = Vec::new();
    let mut rest: &'a str = contents;
    assert(texts(found@) =~= Seq::empty());
    loop
        invariant
            term@ == lowercase(search@),
            texts(found@) + matching_lines(search@, rest@, false) == matching_lines(
                search@,
                contents@,
                false,
            ),
        ensures
            texts(found@) == matching_lines(search@, contents@, false),
        decreases rest@.len(),
    {
        match split_first_line(rest) {
            Some((line, after)) => {
                proof {
                    lemma_matching_lines_unfold(search@, rest@, false);
                }
                let ghost before = texts(found@);
                let form: String = lowercase_of(line);
                if contains(form.as_str(), term.as_str()) {
                    found.push(line);
                    assert(texts(found@) =~= before + seq![line@]);
                }
                rest = after;
            },
            None => {
                assert(matching_lines(search@, rest@, false) =~= Seq::empty());
                break ;
            },
        }
    }
    found
}

/// Runs the search that `config` asks for on the contents of its file: the
/// lines to print, in the order in which they are printed.
pub fn run<'a>(config: &Config, contents: &'a str) -> (found: Vec<&'a str>)
    ensures
        texts(found@) == matching_lines(config.search@, contents@, config.case_sensitive),
{
    if config.case_sensitive {
        grep(config.search.as_str(), contents)
    } else {
        grep_case_insensitive(config.search.as_str(), contents)
    }
}

/// What a search finds is the lines that are a match and no others, each as
/// often as it stands in the contents, in the order in which they stand
/// there: the places of the found lines among the lines of the contents rise,
/// and they are the places of the lines that are a match.
pub proof fn lemma_found_lines_are_the_matches(
    search: Seq<char>,
    contents: Seq<char>,
    case_sensitive: bool,
) -> (places: Seq<int>)
    ensures
        taken_at(matching_lines(search, contents, case_sensitive), lines(contents), places),
        forall|k: int|
            0 <= k < lines(contents).len() ==> (places.contains(k) <==> is_match(
                search,
                #[trigger] lines(contents)[k],
                case_sensitive,
            )),
{
    lemma_filter_places(lines(contents), match_test(search, case_sensitive))
}

/// A search for the empty term finds every line of the contents, as it is
/// written there, whether case counts or not.
pub proof fn lemma_empty_search_finds_every_line(contents: Seq<char>, case_sensitive: bool)
    ensures
        matching_lines(Seq::empty(), contents, case_sensitive) == lines(contents),
{
    let none = Seq::<char>::empty();
    let test = match_test(none, case_sensitive);
    assert forall|i: int| 0 <= i < lines(contents).len() implies test(
        #[trigger] lines(contents)[i],
    ) by {
        let line = lines(contents)[i];
        let form = if case_sensitive {
            line
        } else {
            lowercase(line)
        };
        assert(form.subrange(0, 0) =~= none);
        assert(occurs_at(none, form, 0));
    }
    lemma_filter_keeps_all(lines(contents), test);
}

/// A search of the empty text finds nothing, whatever the term.
pub proof fn lemma_empty_contents_hold_no_match(search: Seq<char>, case_sensitive: bool)
    ensures
        matching_lines(search, Seq::empty(), case_sensitive) == Seq::<Seq<char>>::empty(),
{
}

/// A search has one outcome: two runs on the same term, the same contents and
/// the same mode find the same lines.
pub proof fn lemma_search_is_repeatable(
    search: Seq<char>,
    contents: Seq<char>,
    case_sensitive: bool,
    first: Seq<&str>,
    second: Seq<&str>,
)
    requires
        texts(first) == matching_lines(search, contents, case_sensitive),
        texts(second) == matching_lines(search, contents, case_sensitive),
    ensures
        texts(first) == texts(second),
        first.len() == second.len(),
        forall|i: int| 0 <= i < first.len() ==> first[i]@ == second[i]@,
{
    assert(texts(first).len() == first.len());
    assert(texts(second).len() == second.len());
    assert forall|i: int| 0 <= i < first.len() implies first[i]@ == second[i]@ by {
        assert(texts(first)[i] == first[i]@);
        assert(texts(second)[i] == second[i]@);
    }
}

/// The matching lines of a text are those of its first line, that line itself
/// or none, followed by those of what comes after it.
pub proof fn lemma_matching_lines_unfold(
    search: Seq<char>,
    contents: Seq<char>,
    case_sensitive: bool,
)
    requires
        contents.len() > 0,
    ensures
        matching_lines(search, contents, case_sensitive) == if is_match(
            search,
            first_line(contents),
            case_sensitive,
        ) {
            seq![first_line(contents)] + matching_lines(
                search,
                after_first_line(contents),
                case_sensitive,
            )
        } else {
            matching_lines(search, after_first_line(contents), case_sensitive)
        },
{
    let test = match_test(search, case_sensitive);
    let rest = lines(after_first_line(contents));
    rest.lemma_filter_prepend(first_line(contents), test);
}

/// What a filter keeps is the elements that pass the test, in their order:
/// `places` says where each of them stood.
proof fn lemma_filter_places<T>(items: Seq<T>, test: spec_fn(T) -> bool) -> (places: Seq<int>)
    ensures
        taken_at(items.filter(test), items, places),
        forall|k: int| 0 <= k < items.len() ==> (places.contains(k) <==> test(#[trigger] items[k])),
    decreases items.len(),
{
    if items.len() == 0 {
        items.lemma_filter_len(test);
        Seq::empty()
    } else {
        let front = items.drop_last();
        let last = items.last();
        let before = lemma_filter_places(front, test);
        assert(front.push(last) =~= items);
        front.lemma_filter_push(last, test);
        let places = if test(last) {
            before.push(items.len() - 1)
        } else {
            before
        };
        assert forall|k: int| 0 <= k < items.len() implies (places.contains(k) <==> test(
            #[trigger] items[k],
        )) by {
            if k < front.len() {
                assert(front[k] == items[k]);
                if before.contains(k) {
                    let i = choose|i: int| 0 <= i < before.len() && before[i] == k;
                    assert(places[i] == k);
                }
            } else if test(last) {
                assert(places[places.len() - 1] == k);
            }
        }
        places
    }
}

/// A test that every element passes filters nothing out.
proof fn lemma_filter_keeps_all<T>(items: Seq<T>, test: spec_fn(T) -> bool)
    requires
        forall|i: int| 0 <= i < items.len() ==> test(#[trigger] items[i]),
    ensures
        items.filter(test) == items,
    decreases items.len(),
{
    if items.len() == 0 {
        items.lemma_filter_len(test);
        assert(items.filter(test) =~= items);
    } else {
        let front = items.drop_last();
        assert forall|i: int| 0 <= i < front.len() implies test(#[trigger] front[i]) by {
            assert(front[i] == items[i]);
        }
        lemma_filter_keeps_all(front, test);
        assert(test(items[items.len() - 1]));
        assert(front.push(items.last()) =~= items);
        front.lemma_filter_push(items.last(), test);
    }
}

} // verus!
