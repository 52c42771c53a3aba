//! How the UTF-8 bytes of a text relate to its characters.
//!
//! A `str` is searched and cut by its bytes, while what a search means is said
//! over its characters. The lemmas here carry facts from one side to the other.

use vstd::prelude::*;
use vstd::utf8::*;

verus! {

/// The encoding of two texts put together is their encodings put together.
pub proof fn lemma_encode_concat(first: Seq<char>, second: Seq<char>)
    ensures
        encode_utf8(first + second) == encode_utf8(first) + encode_utf8(second),
    decreases first.len(),
{
    if first.len() == 0 {
        assert(first + second =~= second);
        assert(encode_utf8(first) + encode_utf8(second) =~= encode_utf8(second));
    } else {
        assert((first + second).drop_first() =~= first.drop_first() + second);
        lemma_encode_concat(first.drop_first(), second);
        assert(encode_utf8(first + second) =~= encode_utf8(first) + encode_utf8(second));
    }
}

/// Two texts with the same encoding are the same text.
pub proof fn lemma_encode_injective(first: Seq<char>, second: Seq<char>)
    requires
        encode_utf8(first) == encode_utf8(second),
    ensures
        first == second,
{
    encode_utf8_decode_utf8(first);
    encode_utf8_decode_utf8(second);
}

/// Only the empty text has an empty encoding.
pub proof fn lemma_encode_nonempty(text: Seq<char>)
    ensures
        encode_utf8(text).len() == 0 <==> text.len() == 0,
{
    if text.len() > 0 {
        encode_utf8_first_scalar(text);
    }
}

/// A longer beginning of a text takes more bytes than a shorter one.
pub proof fn lemma_encode_prefix_grows(text: Seq<char>, shorter: int, longer: int)
    requires
        0 <= shorter < longer <= text.len(),
    ensures
        encode_utf8(text.take(shorter)).len() < encode_utf8(text.take(longer)).len(),
{
    let between = text.subrange(shorter, longer);
    assert(text.take(longer) =~= text.take(shorter) + between);
    lemma_encode_concat(text.take(shorter), between);
    lemma_encode_nonempty(between);
}

/// Cutting the encoding of `text` at a character boundary cuts `text`: where
/// `head` and `tail` are the texts that the two pieces encode, `text` is
/// `head` followed by `tail`.
pub proof fn lemma_cut_at_boundary(text: Seq<char>, head: Seq<char>, tail: Seq<char>, mid: int)
    requires
        is_char_boundary(encode_utf8(text), mid),
        0 <= mid <= encode_utf8(text).len(),
        encode_utf8(head) == encode_utf8(text).subrange(0, mid),
        encode_utf8(tail) == encode_utf8(text).subrange(mid, encode_utf8(text).len() as int),
    ensures
        text == head + tail,
{
    let bytes = encode_utf8(text);
    encode_utf8_valid_utf8(text);
    decode_utf8_split(bytes, mid);
    encode_utf8_decode_utf8(text);
    encode_utf8_decode_utf8(head);
    encode_utf8_decode_utf8(tail);
}

/// Where one valid encoding begins another, the longer one has a character
/// boundary at the end of the shorter.
pub proof fn lemma_prefix_ends_at_boundary(prefix: Seq<u8>, bytes: Seq<u8>)
    requires
        valid_utf8(prefix),
        valid_utf8(bytes),
        prefix.len() <= bytes.len(),
        bytes.subrange(0, prefix.len() as int) == prefix,
    ensures
        is_char_boundary(bytes, prefix.len() as int),
    decreases prefix.len(),
{
    if prefix.len() > 0 {
        let width = length_of_first_scalar(prefix);
        assert(forall|k: int| 0 <= k < prefix.len() ==> bytes[k] == prefix[k]) by {
            assert forall|k: int| 0 <= k < prefix.len() implies bytes[k] == prefix[k] by {
                assert(bytes.subrange(0, prefix.len() as int)[k] == bytes[k]);
            }
        }
        assert(length_of_first_scalar(bytes) == width);
        assert(pop_first_scalar(bytes).subrange(0, prefix.len() - width) =~= pop_first_scalar(
            prefix,
        ));
        lemma_prefix_ends_at_boundary(pop_first_scalar(prefix), pop_first_scalar(bytes));
    }
}

} // verus!
