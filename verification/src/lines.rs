//! The lines of a text.
//!
//! A line ends at a line feed, which is no part of it. Nothing else ends a
//! line: a carriage return before the line feed belongs to the line. The last
//! line need not be ended: what follows the last line feed of a text is a line
//! too, unless nothing follows it. The empty text has no lines.

use vstd::prelude::*;
use vstd::utf8::*;
use crate::encoding::{lemma_cut_at_boundary, lemma_encode_injective, lemma_encode_prefix_grows};
use crate::substring::{
    find_bytes, lemma_encoded_occurrence, lemma_occurrence_is_encoded,
    lemma_substring_of_encoding, occurs_at,
};

verus! {

/// The number of characters of `text` before its first line feed, or the
/// length of `text` where it holds none.
pub open spec fn first_line_len(text: Seq<char>) -> int
    decreases text.len(),
{
    if text.len() == 0 || text[0] == '\n' {
        0
    } else {
        1 + first_line_len(text.drop_first())
    }
}

/// The first line of `text`: what stands before its first line feed.
pub open spec fn first_line(text: Seq<char>) -> Seq<char> {
    text.take(first_line_len(text))
}

/// What follows the first line of `text` and the line feed that ends it.
pub open spec fn after_first_line(text: Seq<char>) -> Seq<char> {
    let end = first_line_len(text);
    if 0 <= end < text.len() {
        text.skip(end + 1)
    } else {
        Seq::empty()
    }
}

/// The lines of `text`, in order.
pub open spec fn lines(text: Seq<char>) -> Seq<Seq<char>>
    decreases text.len(),
{
    if text.len() == 0 {
        Seq::empty()
    } else {
        seq![first_line(text)] + lines(after_first_line(text))
    }
}

/// Some lines written out: each followed by a line feed.
pub open spec fn written(lines: Seq<Seq<char>>) -> Seq<char>
    decreases lines.len(),
{
    if lines.len() == 0 {
        Seq::empty()
    } else {
        lines[0] + seq!['\n'] + written(lines.drop_first())
    }
}

/// Cuts the first line off `text`: the line, and what follows its line feed.
/// The empty text has no first line.
pub fn split_first_line<'a>(text: &'a str) -> (parts: Option<(&'a str, &'a str)>)
    ensures
        match parts {
            Some((line, rest)) => {
                &&& text@.len() > 0
                &&& line@ == first_line(text@)
                &&& rest@ == after_first_line(text@)
            },
            None => text@.len() == 0,
        },
{
    if text.is_empty() {
        return None;
    }
    let feed: &str = "\n";
    proof {
        reveal_strlit("\n");
        reveal_strlit("");
    }
    let pattern: &[u8] = feed.as_bytes();
    let width: usize = pattern.len();
    match find_bytes(pattern, text.as_bytes()) {
        Some(place) => {
            proof {
                lemma_encoded_occurrence(feed@, text@, place as int);
            }
            let (line, tail) = text.split_at(place);
            let (ending, rest) = tail.split_at(width);
            proof {
                assert(encode_utf8(ending@) =~= encode_utf8(text@).subrange(
                    place as int,
                    place + width,
                ));
                lemma_encode_injective(ending@, feed@);
                lemma_cut_at_boundary(text@, line@, tail@, place as int);
                lemma_cut_at_boundary(tail@, ending@, rest@, width as int);
                let end = line@.len() as int;
                assert(text@ =~= line@ + feed@ + rest@);
                assert(text@[end] == '\n');
                assert forall|k: int| 0 <= k < end implies text@[k] != '\n' by {
                    if text@[k] == '\n' {
                        assert(text@.subrange(k, k + 1) =~= feed@);
                        lemma_occurrence_is_encoded(feed@, text@, k);
                        lemma_encode_prefix_grows(text@, k, end);
                        assert(text@.take(end) =~= line@);
                    }
                }
                lemma_first_line_len(text@, end);
                assert(line@ =~= first_line(text@));
                assert(rest@ =~= after_first_line(text@));
            }
            Some((line, rest))
        },
        None => {
            proof {
                lemma_substring_of_encoding(feed@, text@);
                assert forall|k: int| 0 <= k < text@.len() implies text@[k] != '\n' by {
                    if text@[k] == '\n' {
                        assert(text@.subrange(k, k + 1) =~= feed@);
                        assert(occurs_at(feed@, text@, k));
                    }
                }
                lemma_first_line_len(text@, text@.len() as int);
                assert(text@ =~= first_line(text@));
            }
            Some((text, ""))
        },
    }
}

/// The first line ends at `end` where no line feed stands before `end` and
/// `end` is a line feed or the end of the text.
pub proof fn lemma_first_line_len(text: Seq<char>, end: int)
    requires
        0 <= end <= text.len(),
        forall|k: int| 0 <= k < end ==> text[k] != '\n',
        end < text.len() ==> text[end] == '\n',
    ensures
        first_line_len(text) == end,
    decreases text.len(),
{
    if end > 0 {
        lemma_first_line_len(text.drop_first(), end - 1);
    }
}

/// The first line ends within the text, holds no line feed, and is followed by
/// one unless it reaches the end of the text.
pub proof fn lemma_first_line_ends(text: Seq<char>)
    ensures
        0 <= first_line_len(text) <= text.len(),
        forall|k: int| 0 <= k < first_line_len(text) ==> text[k] != '\n',
        first_line_len(text) < text.len() ==> text[first_line_len(text)] == '\n',
    decreases text.len(),
{
    if !(text.len() == 0 || text[0] == '\n') {
        let rest = text.drop_first();
        lemma_first_line_ends(rest);
        assert forall|k: int| 0 <= k < first_line_len(text) implies text[k] != '\n' by {
            if k > 0 {
                assert(text[k] == rest[k - 1]);
            }
        }
    }
}

/// A text is its first line, then a line feed and what follows the line,
/// unless the line reaches the end of the text.
pub proof fn lemma_first_line_splits(text: Seq<char>)
    ensures
        first_line_len(text) < text.len() ==> text == first_line(text) + seq!['\n']
            + after_first_line(text),
        first_line_len(text) >= text.len() ==> text == first_line(text) && after_first_line(
            text,
        ).len() == 0,
{
    lemma_first_line_ends(text);
    if first_line_len(text) < text.len() {
        assert(text =~= first_line(text) + seq!['\n'] + after_first_line(text));
    } else {
        assert(text =~= first_line(text));
    }
}

/// No line holds a line feed.
pub proof fn lemma_lines_hold_no_line_feed(text: Seq<char>)
    ensures
        forall|i: int, k: int|
            0 <= i < lines(text).len() && 0 <= k < lines(text)[i].len() ==> lines(text)[i][k]
                != '\n',
    decreases text.len(),
{
    if text.len() > 0 {
        lemma_first_line_ends(text);
        lemma_lines_hold_no_line_feed(after_first_line(text));
        let rest = lines(after_first_line(text));
        assert forall|i: int, k: int|
            0 <= i < lines(text).len() && 0 <= k < lines(text)[i].len() implies lines(text)[i][k]
            != '\n' by {
            if i > 0 {
                assert(lines(text)[i] == rest[i - 1]);
            }
        }
    }
}

/// The lines of a text, written out, are the text again, with a line feed at
/// its end if it lacked one.
pub proof fn lemma_lines_written_give_text(text: Seq<char>)
    ensures
        written(lines(text)) == if text.len() == 0 || text.last() == '\n' {
            text
        } else {
            text.push('\n')
        },
    decreases text.len(),
{
    if text.len() > 0 {
        let rest = after_first_line(text);
        lemma_first_line_ends(text);
        lemma_first_line_splits(text);
        lemma_lines_written_give_text(rest);
        assert(lines(text).drop_first() =~= lines(rest));
        if first_line_len(text) < text.len() {
            if rest.len() == 0 {
                assert(text =~= first_line(text) + seq!['\n']);
            } else {
                assert(text.last() == rest.last());
                assert((first_line(text) + seq!['\n'] + rest).push('\n') =~= first_line(text)
                    + seq!['\n'] + rest.push('\n'));
            }
        } else {
            assert(written(lines(rest)) =~= Seq::<char>::empty());
            assert(text.push('\n') =~= first_line(text) + seq!['\n'] + Seq::<char>::empty());
        }
    }
}

/// Lines that hold no line feed are the lines of what they give when written
/// out.
pub proof fn lemma_lines_of_written(lines_in: Seq<Seq<char>>)
    requires
        forall|i: int, k: int|
            0 <= i < lines_in.len() && 0 <= k < lines_in[i].len() ==> lines_in[i][k] != '\n',
    ensures
        lines(written(lines_in)) == lines_in,
    decreases lines_in.len(),
{
    if lines_in.len() > 0 {
        let head = lines_in[0];
        let tail = lines_in.drop_first();
        let text = written(lines_in);
        assert forall|i: int, k: int|
            0 <= i < tail.len() && 0 <= k < tail[i].len() implies tail[i][k] != '\n' by {
            assert(tail[i] == lines_in[i + 1]);
        }
        lemma_lines_of_written(tail);
        assert(text[head.len() as int] == '\n');
        assert forall|k: int| 0 <= k < head.len() implies text[k] != '\n' by {
            assert(text[k] == head[k]);
        }
        lemma_first_line_len(text, head.len() as int);
        assert(first_line(text) =~= head);
        assert(after_first_line(text) =~= written(tail));
        assert(lines(text) =~= lines_in);
    }
}

/// The last line need not be ended: a text that does not end in a line feed
/// has the lines that it has with one added.
pub proof fn lemma_last_line_needs_no_line_feed(text: Seq<char>)
    requires
        text.len() > 0,
        text.last() != '\n',
    ensures
        lines(text.push('\n')) == lines(text),
{
    lemma_lines_written_give_text(text);
    lemma_lines_hold_no_line_feed(text);
    lemma_lines_of_written(lines(text));
}

} // verus!
