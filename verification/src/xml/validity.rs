//! In valid UTF-8, every piece that a scan cuts out is valid UTF-8: no text is lost.

use vstd::prelude::*;
use vstd::utf8::valid_utf8;

use crate::bytes::{byte_from, is_space, lemma_byte_from, GT, LT};
use crate::text::lemma_slice_valid;
use crate::xml::tokens::{
    attr_step, close_extent, close_prefix, key_stop, lemma_close_extent, lemma_key_stop,
    lemma_name_stop, lemma_open_tag_bounds, lemma_skip_space, name_stop, open_tag, skip_space,
    text_part, AttrStep,
};

verus! {

/// The name and the attributes of an open tag in valid UTF-8 are valid UTF-8.
pub proof fn tag_parts_are_valid(bytes: Seq<u8>, lt: int)
    requires
        valid_utf8(bytes),
        0 <= lt < bytes.len(),
        bytes[lt] == LT,
    ensures
        open_tag(bytes, lt) matches Some(tag) ==> valid_utf8(tag.name) && valid_utf8(tag.interior),
{
    lemma_open_tag_bounds(bytes, lt);
    lemma_name_stop(bytes, lt + 1);
    if let Some(tag) = open_tag(bytes, lt) {
        let stop = name_stop(bytes, lt + 1);
        lemma_slice_valid(bytes, lt + 1, stop);
        lemma_slice_valid(
            bytes,
            stop,
            if tag.self_closing {
                tag.after - 2
            } else {
                tag.after - 1
            },
        );
    }
}

/// The key and the value of an attribute in valid UTF-8, and what follows it, are valid UTF-8.
pub proof fn attribute_parts_are_valid(s: Seq<u8>)
    requires
        valid_utf8(s),
    ensures
        attr_step(s) matches AttrStep::Pair { key, value, rest } ==> valid_utf8(key) && valid_utf8(
            value,
        ) && valid_utf8(rest),
{
    let start = skip_space(s, 0);
    let stop = key_stop(s, start);
    let quote = skip_space(s, stop + 1);
    lemma_skip_space(s, 0);
    lemma_key_stop(s, start);
    if attr_step(s) is Pair {
        lemma_skip_space(s, stop + 1);
        lemma_byte_from(s, s[quote], quote + 1);
        let close = byte_from(s, s[quote], quote + 1)->0;
        if start > 0 {
            assert(is_space(s[start - 1]));
        }
        lemma_slice_valid(s, start, stop);
        lemma_slice_valid(s, quote + 1, close);
        lemma_slice_valid(s, close + 1, s.len() as int);
    }
}

/// What stands between an open tag and the close tag of that name, in valid UTF-8, is valid UTF-8;
/// so is its part before any markup.
pub proof fn value_text_is_valid(
    bytes: Seq<u8>,
    after: int,
    name: Seq<u8>,
    regions: Seq<(int, int)>,
)
    requires
        valid_utf8(bytes),
        0 < after <= bytes.len(),
        bytes[after - 1] == GT,
    ensures
        close_extent(bytes, close_prefix(name), regions, after) matches Some(extent) ==> valid_utf8(
            bytes.subrange(after, extent.0),
        ) && valid_utf8(text_part(bytes.subrange(after, extent.0))),
{
    let prefix = close_prefix(name);
    lemma_close_extent(bytes, prefix, regions, after);
    if let Some(extent) = close_extent(bytes, prefix, regions, after) {
        assert(bytes.subrange(extent.0, extent.0 + prefix.len())[0] == prefix[0]);
        lemma_slice_valid(bytes, after, extent.0);
        let raw = bytes.subrange(after, extent.0);
        lemma_byte_from(raw, LT, 0);
        if let Some(cut) = byte_from(raw, LT, 0) {
            lemma_slice_valid(raw, 0, cut);
        }
    }
}

} // verus!
