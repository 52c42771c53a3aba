//! Lowercase forms, by which texts are compared when case is ignored.

use vstd::prelude::*;

verus! {

/// What `str::to_lowercase` returns for a text: its lowercase equivalent by the
/// Unicode rules that the standard library carries. This library does not
/// define it; it holds only that one text has one such equivalent.
pub uninterp spec fn unicode_lowercase(text: Seq<char>) -> Seq<char>;

/// `str::to_lowercase` returns the lowercase equivalent of the text it is
/// given. Nothing else is claimed of it.
pub assume_specification[ str::to_lowercase ](text: &str) -> (lower: String)
    ensures
        lower@ == unicode_lowercase(text@),
;

/// The lowercase form of a text: the empty text for the empty text, and for
/// any other its lowercase equivalent.
pub open spec fn lowercase(text: Seq<char>) -> Seq<char> {
    if text.len() == 0 {
        Seq::empty()
    } else {
        unicode_lowercase(text)
    }
}

/// The lowercase form of `text`.
pub(crate) fn lowercase_of(text: &str) -> (lower: String)
    ensures
        lower@ == lowercase(text@),
{
    if text.is_empty() {
        String::new()
    } else {
        text.to_lowercase()
    }
}

} // verus!
