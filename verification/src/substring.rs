//! Occurrences of one sequence inside another.

use vstd::prelude::*;
use vstd::utf8::*;
use crate::encoding::{
    lemma_encode_concat, lemma_encode_injective, lemma_encode_nonempty,
    lemma_prefix_ends_at_boundary,
};

verus! {

/// `needle` stands in `text` at position `at`: the elements of `text` from `at`
/// on spell out `needle`.
pub open spec fn occurs_at<T>(needle: Seq<T>, text: Seq<T>, at: int) -> bool {
    &&& 0 <= at
    &&& at + needle.len() <= text.len()
    &&& text.subrange(at, at + needle.len()) == needle
}

/// `needle` stands somewhere in `text`. The empty sequence stands in every
/// sequence.
pub open spec fn is_substring<T>(needle: Seq<T>, text: Seq<T>) -> bool {
    exists|at: int| occurs_at(needle, text, at)
}

/// Where `needle` stands in `text` at `at`, the encoding of `needle` stands in
/// the encoding of `text`, as many bytes in as the characters before `at` take.
pub proof fn lemma_occurrence_is_encoded(needle: Seq<char>, text: Seq<char>, at: int)
    requires
        occurs_at(needle, text, at),
    ensures
        occurs_at(encode_utf8(needle), encode_utf8(text), encode_utf8(text.take(at)).len() as int),
{
    let before = text.take(at);
    let after = text.skip(at + needle.len());
    assert(text =~= before + needle + after);
    lemma_encode_concat(before, needle);
    lemma_encode_concat(before + needle, after);
    let place = encode_utf8(before).len() as int;
    assert(encode_utf8(text).subrange(place, place + encode_utf8(needle).len()) =~= encode_utf8(
        needle,
    ));
}

/// Where the encoding of a non-empty `needle` stands in the encoding of `text`
/// at byte `place`, it begins and ends on character boundaries, and `needle`
/// stands in `text` at the character that begins at `place`.
pub proof fn lemma_encoded_occurrence(needle: Seq<char>, text: Seq<char>, place: int)
    requires
        needle.len() > 0,
        occurs_at(encode_utf8(needle), encode_utf8(text), place),
    ensures
        is_char_boundary(encode_utf8(text), place),
        is_char_boundary(
            encode_utf8(text).subrange(place, encode_utf8(text).len() as int),
            encode_utf8(needle).len() as int,
        ),
        exists|at: int| #[trigger]
            occurs_at(needle, text, at) && encode_utf8(text.take(at)).len() == place,
{
    let pattern = encode_utf8(needle);
    let bytes = encode_utf8(text);
    let width = pattern.len() as int;
    encode_utf8_valid_utf8(needle);
    encode_utf8_valid_utf8(text);
    lemma_encode_nonempty(needle);
    assert(bytes.subrange(place, place + width)[0] == bytes[place]);
    assert(!is_continuation_byte(pattern[0]));
    is_char_boundary_iff_not_is_continuation_byte(bytes, place);
    let rest = bytes.subrange(place, bytes.len() as int);
    valid_utf8_split(bytes, place);
    assert(rest.subrange(0, width) =~= pattern);
    lemma_prefix_ends_at_boundary(pattern, rest);
    decode_utf8_split(bytes, place);
    decode_utf8_split(rest, width);
    encode_utf8_decode_utf8(text);
    encode_utf8_decode_utf8(needle);
    let before = decode_utf8(bytes.subrange(0, place));
    let after = decode_utf8(rest.subrange(width, rest.len() as int));
    assert(text =~= before + needle + after);
    let at = before.len() as int;
    assert(text.subrange(at, at + needle.len()) =~= needle);
    assert(text.take(at) =~= before);
    decode_utf8_encode_utf8(bytes.subrange(0, place));
    assert(occurs_at(needle, text, at) && encode_utf8(text.take(at)).len() == place);
}

/// A text stands in another exactly when its encoding stands in the other's
/// encoding.
pub proof fn lemma_substring_of_encoding(needle: Seq<char>, text: Seq<char>)
    ensures
        is_substring(encode_utf8(needle), encode_utf8(text)) <==> is_substring(needle, text),
{
    if is_substring(needle, text) {
        let at = choose|at: int| occurs_at(needle, text, at);
        lemma_occurrence_is_encoded(needle, text, at);
    }
    if is_substring(encode_utf8(needle), encode_utf8(text)) {
        if needle.len() == 0 {
            assert(text.subrange(0, 0) =~= needle);
            assert(occurs_at(needle, text, 0));
        } else {
            let place = choose|place: int| occurs_at(encode_utf8(needle), encode_utf8(text), place);
            lemma_encoded_occurrence(needle, text, place);
        }
    }
}

/// Whether the bytes of `needle` stand in `text` at position `at`.
fn bytes_occur_at(needle: &[u8], text: &[u8], at: usize) -> (found: bool)
    requires
        at + needle@.len() <= text@.len(),
    ensures
        found == occurs_at(needle@, text@, at as int),
{
    let length: usize = needle.len();
    let limit: usize = text.len();
    let mut matched: usize = 0;
    while matched < length
        invariant
            length == needle@.len(),
            matched <= length,
            limit == text@.len(),
            at + length <= limit,
            forall|k: int| 0 <= k < matched ==> text@[at + k] == needle@[k],
        decreases length - matched,
    {
        if text[at + matched] != needle[matched] {
            proof {
                let window = text@.subrange(at as int, at + needle@.len());
                assert(window[matched as int] == text@[at + matched]);
            }
            return false;
        }
        matched += 1;
    }
    assert(text@.subrange(at as int, at + needle@.len()) =~= needle@);
    true
}

/// The first position at which the bytes of `needle` stand in `text`, if they
/// stand in it at all.
pub(crate) fn find_bytes(needle: &[u8], text: &[u8]) -> (place: Option<usize>)
    ensures
        match place {
            Some(at) => {
                &&& occurs_at(needle@, text@, at as int)
                &&& forall|k: int| 0 <= k < at ==> !occurs_at(needle@, text@, k)
            },
            None => !is_substring(needle@, text@),
        },
{
    let length: usize = needle.len();
    let limit: usize = text.len();
    if length > limit {
        return None;
    }
    let last: usize = limit - length;
    let mut at: usize = 0;
    while at < last
        invariant
            length == needle@.len(),
            limit == text@.len(),
            last == limit - length,
            at <= last,
            forall|k: int| 0 <= k < at ==> !occurs_at(needle@, text@, k),
        decreases last - at,
    {
        if bytes_occur_at(needle, text, at) {
            return Some(at);
        }
        at += 1;
    }
    if bytes_occur_at(needle, text, last) {
        Some(last)
    } else {
        None
    }
}

/// Whether two texts are the same, character for character.
pub fn same_text(first: &str, second: &str) -> (same: bool)
    ensures
        same == (first@ == second@),
{
    let left: &[u8] = first.as_bytes();
    let right: &[u8] = second.as_bytes();
    let same = left.len() == right.len() && bytes_occur_at(left, right, 0);
    proof {
        if left@.len() == right@.len() {
            assert(right@.subrange(0, left@.len() as int) =~= right@);
        }
        if same {
            lemma_encode_injective(first@, second@);
        }
    }
    same
}

/// Whether `needle` stands somewhere in `text`, character for character.
pub fn contains(text: &str, needle: &str) -> (found: bool)
    ensures
        found == is_substring(needle@, text@),
{
    let place = find_bytes(needle.as_bytes(), text.as_bytes());
    proof {
        lemma_substring_of_encoding(needle@, text@);
    }
    place.is_some()
}

} // verus!
