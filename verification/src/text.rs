//! Text out of bytes: UTF-8 and XML entities.

use vstd::prelude::*;
use vstd::utf8::{
    decode_utf8, encode_utf8, encode_utf8_decode_utf8, is_char_boundary,
    is_char_boundary_iff_not_is_continuation_byte, is_char_boundary_start_end_of_seq,
    is_continuation_byte, length_of_first_scalar, pop_first_scalar, valid_utf8, valid_utf8_split,
};

use crate::bytes::{byte_from, find_byte, AMPERSAND};

verus! {

#[verifier::external_type_specification]
#[verifier::external_body]
pub struct ExUtf8Error(simdutf8::basic::Utf8Error);

/// `simdutf8::basic::from_utf8` accepts just the valid UTF-8 strings, and hands an accepted one
/// back as the text that it encodes.
pub assume_specification[ simdutf8::basic::from_utf8 ](input: &[u8]) -> (text: Result<
    &str,
    simdutf8::basic::Utf8Error,
>)
    ensures
        text is Ok <==> valid_utf8(input@),
        text matches Ok(s) ==> encode_utf8(s@) == input@,
;

/// A text or a message, by their characters.
pub open spec fn text_result(r: Result<String, String>) -> Result<Seq<char>, Seq<char>> {
    match r {
        Ok(s) => Ok(s@),
        Err(message) => Err(message@),
    }
}

/// What `quick_xml::escape::unescape` makes of a text: the text with its entities replaced, or the
/// message of the error.
pub uninterp spec fn unescaped(text: Seq<char>) -> Result<Seq<char>, Seq<char>>;

/// `quick_xml::escape::unescape` replaces the predefined entities and the character references of
/// a text; an error comes as its message.
#[verifier::external_body]
pub(crate) fn unescape(text: &str) -> (plain: Result<String, String>)
    ensures
        text_result(plain) == unescaped(text@),
{
    match quick_xml::escape::unescape(text) {
        Ok(s) => Ok(s.into_owned()),
        Err(e) => Err(e.to_string()),
    }
}

/// `i` is an end of `bytes`, or an ASCII byte stands on one side of it.
pub open spec fn ascii_edge(bytes: Seq<u8>, i: int) -> bool {
    &&& 0 <= i <= bytes.len()
    &&& i == 0 || i == bytes.len() || bytes[i] < 0x80 || bytes[i - 1] < 0x80
}

/// A character of valid UTF-8 starts or ends where an ASCII byte stands.
pub proof fn lemma_ascii_edge_is_boundary(bytes: Seq<u8>, i: int)
    requires
        valid_utf8(bytes),
        ascii_edge(bytes, i),
    ensures
        is_char_boundary(bytes, i),
{
    if i == 0 || i == bytes.len() {
        is_char_boundary_start_end_of_seq(bytes);
    } else if bytes[i] < 0x80 {
        is_char_boundary_iff_not_is_continuation_byte(bytes, i);
    } else {
        is_char_boundary_iff_not_is_continuation_byte(bytes, i - 1);
        valid_utf8_split(bytes, i - 1);
        let tail = bytes.subrange(i - 1, bytes.len() as int);
        assert(tail[0] == bytes[i - 1]);
        assert(length_of_first_scalar(tail) == 1);
        let rest = pop_first_scalar(tail);
        assert(rest[0] == bytes[i]);
        assert(valid_utf8(rest));
        is_char_boundary_start_end_of_seq(rest);
        is_char_boundary_iff_not_is_continuation_byte(rest, 0);
        assert(!is_continuation_byte(bytes[i]));
        is_char_boundary_iff_not_is_continuation_byte(bytes, i);
    }
}

/// A slice of valid UTF-8 between two ASCII edges is valid UTF-8.
pub proof fn lemma_slice_valid(bytes: Seq<u8>, i: int, j: int)
    requires
        valid_utf8(bytes),
        ascii_edge(bytes, i),
        ascii_edge(bytes, j),
        i <= j,
    ensures
        valid_utf8(bytes.subrange(i, j)),
{
    lemma_ascii_edge_is_boundary(bytes, j);
    valid_utf8_split(bytes, j);
    let head = bytes.subrange(0, j);
    if i == j {
        assert(head.subrange(j, j).len() == 0);
        assert(bytes.subrange(i, j) =~= Seq::empty());
    } else {
        assert(ascii_edge(head, i)) by {
            if i > 0 {
                assert(head[i] == bytes[i]);
                assert(head[i - 1] == bytes[i - 1]);
            }
        }
        lemma_ascii_edge_is_boundary(head, i);
        valid_utf8_split(head, i);
        assert(head.subrange(i, j) =~= bytes.subrange(i, j));
    }
}

/// The text that bytes stand for; bytes that are not valid UTF-8 stand for none.
pub open spec fn plain_text(raw: Seq<u8>) -> Seq<char> {
    if valid_utf8(raw) {
        decode_utf8(raw)
    } else {
        Seq::empty()
    }
}

/// The text that raw bytes stand for, with the entities replaced where there are any and they can
/// be.
pub open spec fn decoded(raw: Seq<u8>) -> Seq<char> {
    if byte_from(raw, AMPERSAND, 0) is None {
        plain_text(raw)
    } else {
        match unescaped(plain_text(raw)) {
            Ok(plain) => plain,
            Err(_) => plain_text(raw),
        }
    }
}

/// The text that bytes stand for; bytes that are not valid UTF-8 stand for none.
pub fn utf8_text(raw: &[u8]) -> (text: String)
    ensures
        text@ == plain_text(raw@),
{
    match simdutf8::basic::from_utf8(raw) {
        Ok(s) => {
            proof {
                encode_utf8_decode_utf8(s@);
            }
            s.to_owned()
        },
        Err(_) => String::new(),
    }
}

/// Decodes raw bytes and replaces the entities where there is an `&`; a text whose entities cannot
/// be replaced is kept as it stands.
pub fn decode_bytes(raw: &[u8]) -> (text: String)
    ensures
        text@ == decoded(raw@),
{
    let text = utf8_text(raw);
    match find_byte(raw, AMPERSAND, 0) {
        None => text,
        Some(_) => match unescape(text.as_str()) {
            Ok(plain) => plain,
            Err(_) => text,
        },
    }
}

/// Decodes an attribute key or value.
pub fn decode_attr(raw: &[u8]) -> (text: String)
    ensures
        text@ == decoded(raw@),
{
    decode_bytes(raw)
}

/// Whether the bytes are valid UTF-8.
pub fn is_utf8(bytes: &[u8]) -> (yes: bool)
    ensures
        yes == valid_utf8(bytes@),
{
    simdutf8::basic::from_utf8(bytes).is_ok()
}

} // verus!
