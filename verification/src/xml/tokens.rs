//! The tokens of a row: open tags, close tags, attributes and skipped constructs.

use std::ops::Range;

use vstd::prelude::*;
use vstd::slice::slice_subrange;
use vstd::utf8::encode_utf8;

use crate::bytes::{
    byte_from, bytes_from, find_byte, find_bytes, first_where, is_space, lemma_byte_from,
    lemma_bytes_from, lemma_first_where, lemma_first_where_is, occurs_at, offset, same_bytes,
    starts_with_at, BANG, CARRIAGE_RETURN, DOUBLE_QUOTE, EQUALS, GT, LINE_FEED, LT, QUESTION,
    SINGLE_QUOTE, SLASH, SPACE, TAB,
};
use crate::markup::{
    ends_name, in_region, in_spans, is_name_end, lemma_span_end, region_end, span_end, spans,
    CDATA_CLOSE, CDATA_OPEN, COMMENT_CLOSE, COMMENT_OPEN,
};
use crate::text::{decode_bytes, decoded};

verus! {

/// Whether the byte is white space.
pub fn is_ws(b: u8) -> (yes: bool)
    ensures
        yes == is_space(b),
{
    b == SPACE || b == TAB || b == CARRIAGE_RETURN || b == LINE_FEED
}

/// Offset of the next `<` at or after `from`.
pub fn next_lt(bytes: &[u8], from: usize) -> (at: Option<usize>)
    requires
        from <= bytes@.len(),
    ensures
        offset(at) == byte_from(bytes@, LT, from as int),
        at matches Some(i) ==> from <= i < bytes@.len() && bytes@[i as int] == LT,
{
    find_byte(bytes, LT, from)
}

/// The byte at `at` may follow the name in a close tag: `>` or white space.
pub open spec fn closes_name_at(bytes: Seq<u8>, at: int) -> bool {
    0 <= at < bytes.len() && (bytes[at] == GT || is_space(bytes[at]))
}

/// Whether the byte at `after_pat` may follow the name in a close tag.
pub fn close_boundary_ok(bytes: &[u8], after_pat: usize) -> (yes: bool)
    ensures
        yes == closes_name_at(bytes@, after_pat as int),
{
    after_pat < bytes.len() && (bytes[after_pat] == GT || is_ws(bytes[after_pat]))
}

/// The offsets at which the close tag prefix `pat` stands, ends a name, and lies in no region.
pub open spec fn close_starts(
    bytes: Seq<u8>,
    pat: Seq<u8>,
    regions: Seq<(int, int)>,
) -> spec_fn(int) -> bool {
    |i: int|
        occurs_at(bytes, pat, i) && closes_name_at(bytes, i + pat.len()) && !in_spans(regions, i)
}

/// The first close tag that starts with `pat`, such as `</Field`, at or after `from`.
pub open spec fn close_start(
    bytes: Seq<u8>,
    pat: Seq<u8>,
    regions: Seq<(int, int)>,
    from: int,
) -> Option<int> {
    first_where(from, bytes.len() as int, close_starts(bytes, pat, regions))
}

/// The start of the first close tag at or after `from`, and the offset just past its `>`.
pub open spec fn close_extent(
    bytes: Seq<u8>,
    pat: Seq<u8>,
    regions: Seq<(int, int)>,
    from: int,
) -> Option<(int, int)> {
    match close_start(bytes, pat, regions, from) {
        Some(at) => match byte_from(bytes, GT, at + pat.len()) {
            Some(gt) => Some((at, gt + 1)),
            None => None,
        },
        None => None,
    }
}

/// Where a close tag lies.
pub proof fn lemma_close_extent(
    bytes: Seq<u8>,
    pat: Seq<u8>,
    regions: Seq<(int, int)>,
    from: int,
)
    ensures
        close_extent(bytes, pat, regions, from) matches Some(extent) ==> from <= extent.0
            && occurs_at(bytes, pat, extent.0) && extent.0 + pat.len() < extent.1 <= bytes.len(),
{
    lemma_first_where(from, bytes.len() as int, close_starts(bytes, pat, regions));
    if let Some(at) = close_start(bytes, pat, regions, from) {
        lemma_byte_from(bytes, GT, at + pat.len());
    }
}

/// Finds the first close tag that starts with `pat` at or after `from`, outside the regions.
pub fn find_close_start(
    bytes: &[u8],
    from: usize,
    pat: &[u8],
    regions: &[Range<usize>],
) -> (at: Option<usize>)
    requires
        from <= bytes@.len(),
    ensures
        offset(at) == close_start(bytes@, pat@, spans(regions@), from as int),
        at matches Some(i) ==> from <= i && i + pat@.len() < bytes@.len(),
{
    let len: usize = bytes.len();
    let ghost hit = close_starts(bytes@, pat@, spans(regions@));
    let mut search: usize = from;
    loop
        invariant
            len == bytes@.len(),
            from <= search <= len,
            hit == close_starts(bytes@, pat@, spans(regions@)),
            forall|j: int| from <= j < search ==> !#[trigger] hit(j),
        decreases len - search,
    {
        proof {
            lemma_bytes_from(bytes@, pat@, search as int);
        }
        match find_bytes(bytes, pat, search) {
            Some(at) => {
                let after: usize = at + pat.len();
                if close_boundary_ok(bytes, after) && !in_region(regions, at) {
                    proof {
                        assert(hit(at as int));
                        lemma_first_where_is(from as int, len as int, hit, Some(at as int));
                    }
                    return Some(at);
                }
                assert(!hit(at as int));
                if at == len {
                    proof {
                        lemma_first_where_is(from as int, len as int, hit, None);
                    }
                    return None;
                }
                search = at + 1;
            },
            None => {
                proof {
                    lemma_first_where_is(from as int, len as int, hit, None);
                }
                return None;
            },
        }
    }
}

/// Finds the first close tag that starts with `pat` at or after `from`, outside the regions, and
/// returns the offset just past its `>`.
pub fn find_close_after(
    bytes: &[u8],
    from: usize,
    pat: &[u8],
    regions: &[Range<usize>],
) -> (after: Option<usize>)
    requires
        from <= bytes@.len(),
    ensures
        offset(after) == (match close_extent(bytes@, pat@, spans(regions@), from as int) {
            Some(extent) => Some(extent.1),
            None => None,
        }),
        after matches Some(i) ==> from < i <= bytes@.len(),
{
    let len: usize = bytes.len();
    match find_close_start(bytes, from, pat, regions) {
        Some(at) => {
            match find_byte(bytes, GT, at + pat.len()) {
                Some(gt) => Some(gt + 1),
                None => None,
            }
        },
        None => None,
    }
}

/// The offsets at which a byte ends a tag name.
pub open spec fn name_ends(bytes: Seq<u8>) -> spec_fn(int) -> bool {
    |i: int| ends_name(bytes[i])
}

/// The end of the name that starts at `from`.
pub open spec fn name_stop(bytes: Seq<u8>, from: int) -> int {
    match first_where(from, bytes.len() as int, name_ends(bytes)) {
        Some(i) => i,
        None => bytes.len() as int,
    }
}

/// The offsets of quotes and of `>`.
pub open spec fn quote_or_gt(bytes: Seq<u8>) -> spec_fn(int) -> bool {
    |i: int| bytes[i] == DOUBLE_QUOTE || bytes[i] == SINGLE_QUOTE || bytes[i] == GT
}

/// The first `>` at or after `from` that does not stand between quotes.
pub open spec fn tag_gt(bytes: Seq<u8>, from: int) -> Option<int>
    decreases bytes.len() - from,
{
    match first_where(from, bytes.len() as int, quote_or_gt(bytes)) {
        Some(at) => if bytes[at] == GT {
            Some(at)
        } else {
            match byte_from(bytes, bytes[at], at + 1) {
                Some(close) => {
                    proof {
                        lemma_first_where(from, bytes.len() as int, quote_or_gt(bytes));
                        lemma_byte_from(bytes, bytes[at], at + 1);
                    }
                    tag_gt(bytes, close + 1)
                },
                None => None,
            }
        },
        None => None,
    }
}

/// An open tag.
#[verifier::ext_equal]
pub struct OpenTagView {
    /// The tag name.
    pub name: Seq<u8>,
    /// What stands between the name and `>`, without the `/` of a self-closing tag.
    pub interior: Seq<u8>,
    /// The offset just past `>`.
    pub after: int,
    /// The tag ends in `/>`.
    pub self_closing: bool,
}

/// The open tag that starts with the `<` at `lt`, unless the name is empty or the `>` is missing.
pub open spec fn open_tag(bytes: Seq<u8>, lt: int) -> Option<OpenTagView> {
    let stop = name_stop(bytes, lt + 1);
    if stop == lt + 1 {
        None
    } else {
        match tag_gt(bytes, stop) {
            Some(gt) => {
                let self_closing = bytes[gt - 1] == SLASH;
                Some(
                    OpenTagView {
                        name: bytes.subrange(lt + 1, stop),
                        interior: bytes.subrange(
                            stop,
                            if self_closing {
                                gt - 1
                            } else {
                                gt
                            },
                        ),
                        after: gt + 1,
                        self_closing,
                    },
                )
            },
            None => None,
        }
    }
}

pub proof fn lemma_name_stop(bytes: Seq<u8>, from: int)
    requires
        from <= bytes.len(),
    ensures
        from <= name_stop(bytes, from) <= bytes.len(),
        forall|j: int| from <= j < name_stop(bytes, from) ==> !ends_name(#[trigger] bytes[j]),
        name_stop(bytes, from) < bytes.len() ==> ends_name(bytes[name_stop(bytes, from)]),
{
    let hit = name_ends(bytes);
    lemma_first_where(from, bytes.len() as int, hit);
    assert forall|j: int| from <= j < name_stop(bytes, from) implies !ends_name(
        #[trigger] bytes[j],
    ) by {
        assert(!hit(j));
    }
}

pub proof fn lemma_tag_gt(bytes: Seq<u8>, from: int)
    requires
        0 <= from <= bytes.len(),
    ensures
        tag_gt(bytes, from) matches Some(gt) ==> from <= gt < bytes.len() && bytes[gt] == GT,
    decreases bytes.len() - from,
{
    lemma_first_where(from, bytes.len() as int, quote_or_gt(bytes));
    if let Some(at) = first_where(from, bytes.len() as int, quote_or_gt(bytes)) {
        if bytes[at] != GT {
            lemma_byte_from(bytes, bytes[at], at + 1);
            if let Some(close) = byte_from(bytes, bytes[at], at + 1) {
                lemma_tag_gt(bytes, close + 1);
            }
        }
    }
}

/// Where the parts of an open tag lie.
pub proof fn lemma_open_tag_bounds(bytes: Seq<u8>, lt: int)
    requires
        0 <= lt < bytes.len(),
    ensures
        open_tag(bytes, lt) matches Some(tag) ==> {
            let stop = name_stop(bytes, lt + 1);
            &&& lt + 1 < stop < tag.after <= bytes.len()
            &&& bytes[tag.after - 1] == GT
            &&& tag_gt(bytes, stop) == Some(tag.after - 1)
            &&& tag.self_closing ==> stop < tag.after - 1 && bytes[tag.after - 2] == SLASH
        },
{
    let stop = name_stop(bytes, lt + 1);
    lemma_name_stop(bytes, lt + 1);
    lemma_tag_gt(bytes, stop);
    if let Some(gt) = tag_gt(bytes, stop) {
        if stop > lt + 1 {
            assert(!ends_name(bytes[stop - 1]));
        }
    }
}

/// An open tag scanned from the input.
pub struct OpenTag<'a> {
    /// The tag name.
    pub name: &'a [u8],
    /// Offset just past the name.
    pub name_end: usize,
    /// Offset of `>`.
    pub gt: usize,
    /// The tag ends in `/>`.
    pub self_closing: bool,
}

impl<'a> OpenTag<'a> {
    /// Where the interior ends: at `>`, or at the `/` before it in a self-closing tag.
    pub open spec fn interior_end(&self) -> int {
        if self.self_closing {
            self.gt - 1
        } else {
            self.gt as int
        }
    }

    /// The offsets of the tag are offsets in `bytes`.
    pub open spec fn fits(&self, bytes: Seq<u8>) -> bool {
        self.name_end <= self.interior_end() && self.gt < bytes.len()
    }

    /// The tag as it stands in `bytes`.
    pub open spec fn seen_in(&self, bytes: Seq<u8>) -> OpenTagView {
        OpenTagView {
            name: self.name@,
            interior: bytes.subrange(self.name_end as int, self.interior_end()),
            after: self.gt + 1,
            self_closing: self.self_closing,
        }
    }

    /// The bytes between the tag name and `>`, without the `/` of a self-closing tag.
    pub fn interior<'b>(&self, bytes: &'b [u8]) -> (inner: &'b [u8])
        requires
            self.fits(bytes@),
        ensures
            inner@ == self.seen_in(bytes@).interior,
    {
        let end: usize = if self.self_closing {
            self.gt - 1
        } else {
            self.gt
        };
        slice_subrange(bytes, self.name_end, end)
    }

    /// The offset just past `>`.
    pub fn after(&self) -> (at: usize)
        requires
            self.gt < usize::MAX,
        ensures
            at == self.gt + 1,
    {
        self.gt + 1
    }
}

/// Scans the open tag that starts with the `<` at `lt`. A `>` between quotes does not end the tag.
pub fn scan_open_tag(bytes: &[u8], lt: usize) -> (tag: Option<OpenTag<'_>>)
    requires
        lt < bytes@.len(),
    ensures
        match tag {
            Some(t) => open_tag(bytes@, lt as int) == Some(t.seen_in(bytes@)) && t.fits(bytes@) && lt
                < t.gt,
            None => open_tag(bytes@, lt as int) is None,
        },
{
    let len: usize = bytes.len();
    let start: usize = lt + 1;
    let mut i: usize = start;
    while i < len && !is_name_end(bytes[i])
        invariant
            len == bytes@.len(),
            start <= i <= len,
            forall|j: int| start <= j < i ==> !ends_name(#[trigger] bytes@[j]),
        decreases len - i,
    {
        i += 1;
    }
    let stop: usize = i;
    proof {
        let found: Option<int> = if stop < len {
            Some(stop as int)
        } else {
            None
        };
        let hit = name_ends(bytes@);
        assert forall|j: int| start <= j < stop implies !#[trigger] hit(j) by {
            assert(!ends_name(bytes@[j]));
        }
        lemma_first_where_is(start as int, len as int, hit, found);
        assert(stop == name_stop(bytes@, lt + 1));
    }
    if stop == start {
        return None;
    }
    let name = slice_subrange(bytes, start, stop);
    loop
        invariant
            len == bytes@.len(),
            lt < len,
            start == lt + 1,
            start < stop <= i <= len,
            stop == name_stop(bytes@, lt + 1),
            name@ == bytes@.subrange(start as int, stop as int),
            tag_gt(bytes@, stop as int) == tag_gt(bytes@, i as int),
        decreases len - i,
    {
        let tail = slice_subrange(bytes, i, len);
        let found = memchr::memchr3(DOUBLE_QUOTE, SINGLE_QUOTE, GT, tail);
        proof {
            let hit = quote_or_gt(bytes@);
            let at: Option<int> = match found {
                Some(rel) => Some(i + rel),
                None => None,
            };
            assert forall|j: int|
                i <= j < (match at {
                    Some(k) => k,
                    None => len as int,
                }) implies !#[trigger] hit(j) by {
                assert(tail@[j - i] == bytes@[j]);
            }
            lemma_first_where_is(i as int, len as int, hit, at);
        }
        match found {
            None => {
                return None;
            },
            Some(rel) => {
                let at: usize = i + rel;
                if bytes[at] == GT {
                    let self_closing = bytes[at - 1] == SLASH;
                    proof {
                        lemma_open_tag_bounds(bytes@, lt as int);
                    }
                    return Some(OpenTag { name, name_end: stop, gt: at, self_closing });
                }
                match find_byte(bytes, bytes[at], at + 1) {
                    Some(close) => {
                        i = close + 1;
                    },
                    None => {
                        return None;
                    },
                }
            },
        }
    }
}

/// `raw` without the white space at its end.
pub open spec fn trim_end(raw: Seq<u8>) -> Seq<u8>
    decreases raw.len(),
{
    if raw.len() > 0 && is_space(raw.last()) {
        trim_end(raw.drop_last())
    } else {
        raw
    }
}

/// The name in a close tag: white space after it is dropped, but a name of nothing else is kept.
pub open spec fn close_name(raw: Seq<u8>) -> Seq<u8> {
    if trim_end(raw).len() == 0 {
        raw
    } else {
        trim_end(raw)
    }
}

/// The name of the close tag that starts with the `</` at `lt`, and the offset just past its `>`.
pub open spec fn close_tag(bytes: Seq<u8>, lt: int) -> Option<(Seq<u8>, int)> {
    match byte_from(bytes, GT, lt + 2) {
        Some(gt) => Some((close_name(bytes.subrange(lt + 2, gt)), gt + 1)),
        None => None,
    }
}

/// Parses the close tag that starts with the `</` at `lt`.
pub fn scan_close_tag(bytes: &[u8], lt: usize) -> (tag: Option<(&[u8], usize)>)
    requires
        lt + 2 <= bytes@.len(),
    ensures
        match tag {
            Some(t) => close_tag(bytes@, lt as int) == Some((t.0@, t.1 as int)) && lt + 2 < t.1
                <= bytes@.len(),
            None => close_tag(bytes@, lt as int) is None,
        },
{
    let len: usize = bytes.len();
    let start: usize = lt + 2;
    match find_byte(bytes, GT, start) {
        Some(gt) => {
            let ghost raw = bytes@.subrange(start as int, gt as int);
            let mut end: usize = gt;
            assert(raw =~= bytes@.subrange(start as int, end as int));
            while end > start && is_ws(bytes[end - 1])
                invariant
                    len == bytes@.len(),
                    start <= end <= gt < len,
                    trim_end(raw) == trim_end(bytes@.subrange(start as int, end as int)),
                decreases end,
            {
                assert(bytes@.subrange(start as int, end as int).drop_last() =~= bytes@.subrange(
                    start as int,
                    end - 1,
                ));
                end -= 1;
            }
            assert(trim_end(raw) == bytes@.subrange(start as int, end as int));
            if end == start {
                Some((slice_subrange(bytes, start, gt), gt + 1))
            } else {
                Some((slice_subrange(bytes, start, end), gt + 1))
            }
        },
        None => None,
    }
}

/// The offset just past the comment, CDATA section, processing instruction or declaration that
/// starts at `lt`.
pub open spec fn construct_skip(bytes: Seq<u8>, lt: int) -> Option<int> {
    if occurs_at(bytes, COMMENT_OPEN@, lt) {
        match bytes_from(bytes, COMMENT_CLOSE@, lt + COMMENT_OPEN@.len()) {
            Some(at) => Some(at + COMMENT_CLOSE@.len()),
            None => None,
        }
    } else if occurs_at(bytes, CDATA_OPEN@, lt) {
        match bytes_from(bytes, CDATA_CLOSE@, lt + CDATA_OPEN@.len()) {
            Some(at) => Some(at + CDATA_CLOSE@.len()),
            None => None,
        }
    } else {
        match byte_from(bytes, GT, lt + 1) {
            Some(gt) => Some(gt + 1),
            None => None,
        }
    }
}

/// Skips a comment, a CDATA section, a processing instruction or a declaration that starts at
/// `lt`. The latter two end at the first `>`.
pub fn skip_construct(bytes: &[u8], lt: usize) -> (after: Option<usize>)
    requires
        lt < bytes@.len(),
    ensures
        offset(after) == construct_skip(bytes@, lt as int),
        after matches Some(i) ==> lt < i <= bytes@.len(),
{
    let len: usize = bytes.len();
    if starts_with_at(bytes, &COMMENT_OPEN, lt) {
        match find_bytes(bytes, &COMMENT_CLOSE, lt + 4) {
            Some(at) => Some(at + 3),
            None => None,
        }
    } else if starts_with_at(bytes, &CDATA_OPEN, lt) {
        match find_bytes(bytes, &CDATA_CLOSE, lt + 9) {
            Some(at) => Some(at + 3),
            None => None,
        }
    } else {
        match find_byte(bytes, GT, lt + 1) {
            Some(gt) => Some(gt + 1),
            None => None,
        }
    }
}

/// The offsets of bytes that are not white space.
pub open spec fn not_space(s: Seq<u8>) -> spec_fn(int) -> bool {
    |i: int| !is_space(s[i])
}

/// The first offset at or after `from` that is not white space, or the end.
pub open spec fn skip_space(s: Seq<u8>, from: int) -> int {
    match first_where(from, s.len() as int, not_space(s)) {
        Some(i) => i,
        None => s.len() as int,
    }
}

/// The offsets of bytes that end an attribute key: `=` and white space.
pub open spec fn key_ends(s: Seq<u8>) -> spec_fn(int) -> bool {
    |i: int| s[i] == EQUALS || is_space(s[i])
}

/// The end of the attribute key that starts at `from`.
pub open spec fn key_stop(s: Seq<u8>, from: int) -> int {
    match first_where(from, s.len() as int, key_ends(s)) {
        Some(i) => i,
        None => s.len() as int,
    }
}

/// What comes next in the interior of a tag.
#[verifier::ext_equal]
pub enum AttrStep {
    /// No attribute follows.
    End,
    /// The next attribute lacks `=` or a quote.
    Malformed,
    /// An attribute, and what follows it.
    Pair { key: Seq<u8>, value: Seq<u8>, rest: Seq<u8> },
}

/// The next attribute of `s`.
pub open spec fn attr_step(s: Seq<u8>) -> AttrStep {
    let start = skip_space(s, 0);
    let stop = key_stop(s, start);
    let quote = skip_space(s, stop + 1);
    if start >= s.len() {
        AttrStep::End
    } else if stop >= s.len() || s[stop] != EQUALS {
        AttrStep::Malformed
    } else if quote >= s.len() || (s[quote] != DOUBLE_QUOTE && s[quote] != SINGLE_QUOTE) {
        AttrStep::Malformed
    } else {
        match byte_from(s, s[quote], quote + 1) {
            Some(close) => AttrStep::Pair {
                key: s.subrange(start, stop),
                value: s.subrange(quote + 1, close),
                rest: s.subrange(close + 1, s.len() as int),
            },
            None => AttrStep::Malformed,
        }
    }
}

pub proof fn lemma_skip_space(s: Seq<u8>, from: int)
    requires
        from <= s.len(),
    ensures
        from <= skip_space(s, from) <= s.len(),
        forall|j: int| from <= j < skip_space(s, from) ==> is_space(#[trigger] s[j]),
        skip_space(s, from) < s.len() ==> !is_space(s[skip_space(s, from)]),
{
    let hit = not_space(s);
    lemma_first_where(from, s.len() as int, hit);
    assert forall|j: int| from <= j < skip_space(s, from) implies is_space(#[trigger] s[j]) by {
        assert(!hit(j));
    }
}

pub proof fn lemma_key_stop(s: Seq<u8>, from: int)
    requires
        from <= s.len(),
    ensures
        from <= key_stop(s, from) <= s.len(),
{
    lemma_first_where(from, s.len() as int, key_ends(s));
}

/// What follows an attribute is shorter.
pub proof fn lemma_attr_step(s: Seq<u8>)
    ensures
        attr_step(s) matches AttrStep::Pair { key, value, rest } ==> rest.len() < s.len(),
{
    let start = skip_space(s, 0);
    let stop = key_stop(s, start);
    let quote = skip_space(s, stop + 1);
    lemma_skip_space(s, 0);
    lemma_key_stop(s, start);
    if stop < s.len() {
        lemma_skip_space(s, stop + 1);
        if quote < s.len() {
            lemma_byte_from(s, s[quote], quote + 1);
        }
    }
}

/// The first offset at or after `from` that is not white space, or the end.
fn past_space(s: &[u8], from: usize) -> (at: usize)
    requires
        from <= s@.len(),
    ensures
        at == skip_space(s@, from as int),
        from <= at <= s@.len(),
{
    let len: usize = s.len();
    let mut i: usize = from;
    while i < len && is_ws(s[i])
        invariant
            len == s@.len(),
            from <= i <= len,
            forall|j: int| from <= j < i ==> is_space(#[trigger] s@[j]),
        decreases len - i,
    {
        i += 1;
    }
    proof {
        let hit = not_space(s@);
        let found: Option<int> = if i < len {
            Some(i as int)
        } else {
            None
        };
        assert forall|j: int| from <= j < i implies !#[trigger] hit(j) by {
            assert(is_space(s@[j]));
        }
        lemma_first_where_is(from as int, len as int, hit, found);
    }
    i
}

/// The `key="value"` and `key='value'` pairs in the interior of a tag.
pub struct AttrIter<'a> {
    rest: &'a [u8],
}

impl<'a> AttrIter<'a> {
    /// What is left of the interior.
    pub closed spec fn left(&self) -> Seq<u8> {
        self.rest@
    }

    /// The attributes of the given interior.
    pub fn new(interior: &'a [u8]) -> (attrs: Self)
        ensures
            attrs.left() == interior@,
    {
        AttrIter { rest: interior }
    }

    /// The next attribute, as its key and its value; an error where it is malformed. After an
    /// error nothing is left.
    pub fn next(&mut self) -> (attr: Option<Result<(&'a [u8], &'a [u8]), ()>>)
        ensures
            match attr_step(old(self).left()) {
                AttrStep::End => attr is None && final(self).left() == old(self).left(),
                AttrStep::Malformed => attr matches Some(Err(_)) && final(self).left().len() == 0,
                AttrStep::Pair { key, value, rest } => attr matches Some(Ok(pair)) && pair.0@ == key
                    && pair.1@ == value && final(self).left() == rest,
            },
    {
        let s: &'a [u8] = self.rest;
        let len: usize = s.len();
        let start: usize = past_space(s, 0);
        if start >= len {
            return None;
        }
        let mut stop: usize = start;
        while stop < len && s[stop] != EQUALS && !is_ws(s[stop])
            invariant
                len == s@.len(),
                start <= stop <= len,
                forall|j: int|
                    start <= j < stop ==> #[trigger] s@[j] != EQUALS && !is_space(s@[j]),
            decreases len - stop,
        {
            stop += 1;
        }
        proof {
            let hit = key_ends(s@);
            let found: Option<int> = if stop < len {
                Some(stop as int)
            } else {
                None
            };
            assert forall|j: int| start <= j < stop implies !#[trigger] hit(j) by {
                assert(s@[j] != EQUALS);
            }
            lemma_first_where_is(start as int, len as int, hit, found);
        }
        if stop >= len || s[stop] != EQUALS {
            self.rest = slice_subrange(s, len, len);
            return Some(Err(()));
        }
        let quote: usize = past_space(s, stop + 1);
        if quote >= len || (s[quote] != DOUBLE_QUOTE && s[quote] != SINGLE_QUOTE) {
            self.rest = slice_subrange(s, len, len);
            return Some(Err(()));
        }
        match find_byte(s, s[quote], quote + 1) {
            Some(close) => {
                self.rest = slice_subrange(s, close + 1, len);
                Some(Ok((slice_subrange(s, start, stop), slice_subrange(s, quote + 1, close))))
            },
            None => {
                self.rest = slice_subrange(s, len, len);
                Some(Err(()))
            },
        }
    }
}

/// The byte strings of a list.
pub open spec fn byte_strings(list: Seq<&[u8]>) -> Seq<Seq<u8>> {
    Seq::new(list.len(), |i: int| list[i]@)
}

/// The value of the first attribute whose key is one of `keys`; an error where a malformed
/// attribute comes before it.
pub open spec fn attr_value(s: Seq<u8>, keys: Seq<Seq<u8>>) -> Result<Option<Seq<u8>>, ()>
    decreases s.len(),
{
    match attr_step(s) {
        AttrStep::End => Ok(None),
        AttrStep::Malformed => Err(()),
        AttrStep::Pair { key, value, rest } => {
            proof {
                lemma_attr_step(s);
            }
            if keys.contains(key) {
                Ok(Some(value))
            } else {
                attr_value(rest, keys)
            }
        },
    }
}

/// Whether `key` is one of `keys`.
pub fn is_one_of(key: &[u8], keys: &[&[u8]]) -> (yes: bool)
    ensures
        yes == byte_strings(keys@).contains(key@),
{
    let mut i: usize = 0;
    while i < keys.len()
        invariant
            i <= keys@.len(),
            forall|k: int| 0 <= k < i ==> #[trigger] byte_strings(keys@)[k] != key@,
        decreases keys@.len() - i,
    {
        if same_bytes(key, keys[i]) {
            assert(byte_strings(keys@)[i as int] == key@);
            return true;
        }
        i += 1;
    }
    false
}

/// Finds the first attribute whose key is one of `keys`, in document order.
///
/// Fails where a malformed attribute comes before it.
pub fn find_attr_value<'a>(interior: &'a [u8], keys: &[&[u8]]) -> (value: Result<
    Option<&'a [u8]>,
    (),
>)
    ensures
        match value {
            Ok(Some(v)) => attr_value(interior@, byte_strings(keys@)) == Ok::<
                Option<Seq<u8>>,
                (),
            >(Some(v@)),
            Ok(None) => attr_value(interior@, byte_strings(keys@)) == Ok::<Option<Seq<u8>>, ()>(
                None,
            ),
            Err(_) => attr_value(interior@, byte_strings(keys@)) is Err,
        },
{
    let mut attrs = AttrIter::new(interior);
    loop
        invariant
            attr_value(interior@, byte_strings(keys@)) == attr_value(
                attrs.left(),
                byte_strings(keys@),
            ),
        decreases attrs.left().len(),
    {
        proof {
            lemma_attr_step(attrs.left());
        }
        match attrs.next() {
            None => {
                return Ok(None);
            },
            Some(Err(_)) => {
                return Err(());
            },
            Some(Ok((key, value))) => {
                if is_one_of(key, keys) {
                    return Ok(Some(value));
                }
            },
        }
    }
}

/// Every span ends in the input.
pub open spec fn spans_fit(spans: Seq<(int, int)>, len: int) -> bool {
    forall|k: int| 0 <= k < spans.len() ==> (#[trigger] spans[k]).1 <= len
}

/// The next piece of markup in a row.
#[verifier::ext_equal]
pub enum TokenView {
    /// The input ends in the middle of the row.
    End,
    /// A region, a comment, a processing instruction or a declaration; the offset past it.
    Skip(int),
    /// A close tag: its name and the offset past it.
    Close { name: Seq<u8>, after: int },
    /// An open tag.
    Open(OpenTagView),
}

/// The first piece of markup at or after `cur`.
pub open spec fn token(bytes: Seq<u8>, cur: int, regions: Seq<(int, int)>) -> TokenView {
    match byte_from(bytes, LT, cur) {
        None => TokenView::End,
        Some(lt) => if lt + 1 >= bytes.len() {
            TokenView::End
        } else if in_spans(regions, lt) {
            TokenView::Skip(span_end(regions, lt))
        } else if bytes[lt + 1] == SLASH {
            match close_tag(bytes, lt) {
                Some(t) => TokenView::Close { name: t.0, after: t.1 },
                None => TokenView::End,
            }
        } else if bytes[lt + 1] == BANG || bytes[lt + 1] == QUESTION {
            match construct_skip(bytes, lt) {
                Some(after) => TokenView::Skip(after),
                None => TokenView::End,
            }
        } else {
            match open_tag(bytes, lt) {
                Some(tag) => TokenView::Open(tag),
                None => TokenView::End,
            }
        },
    }
}

/// How many bytes are left at `cur`.
pub open spec fn bytes_left(bytes: Seq<u8>, cur: int) -> nat {
    if cur < bytes.len() {
        (bytes.len() - cur) as nat
    } else {
        0
    }
}

/// A piece of markup lies in the input and past `cur`.
pub proof fn lemma_token_advances(bytes: Seq<u8>, cur: int, regions: Seq<(int, int)>)
    requires
        0 <= cur,
    ensures
        match token(bytes, cur, regions) {
            TokenView::End => true,
            TokenView::Skip(next) => bytes_left(bytes, next) < bytes_left(bytes, cur) && cur < next
                && (spans_fit(regions, bytes.len() as int) ==> next <= bytes.len()),
            TokenView::Close { name, after } => bytes_left(bytes, after) < bytes_left(bytes, cur)
                && cur < after <= bytes.len(),
            TokenView::Open(tag) => bytes_left(bytes, tag.after) < bytes_left(bytes, cur) && cur
                < tag.after <= bytes.len(),
        },
{
    lemma_byte_from(bytes, LT, cur);
    if let Some(lt) = byte_from(bytes, LT, cur) {
        lemma_span_end(regions, lt);
        lemma_span_end_fits(regions, lt, bytes.len() as int);
        lemma_byte_from(bytes, GT, lt + 2);
        lemma_byte_from(bytes, GT, lt + 1);
        lemma_bytes_from(bytes, COMMENT_CLOSE@, lt + COMMENT_OPEN@.len());
        lemma_bytes_from(bytes, CDATA_CLOSE@, lt + CDATA_OPEN@.len());
        lemma_open_tag_bounds(bytes, lt);
    }
}

/// A span that covers an offset ends in the input where all spans do.
proof fn lemma_span_end_fits(regions: Seq<(int, int)>, at: int, len: int)
    requires
        at < len,
    ensures
        spans_fit(regions, len) ==> span_end(regions, at) <= len,
    decreases regions.len(),
{
    if regions.len() > 0 && spans_fit(regions, len) {
        assert(regions[0].1 <= len);
        assert forall|k: int| 0 <= k < regions.drop_first().len() implies (
        #[trigger] regions.drop_first()[k]).1 <= len by {
            assert(regions[k + 1].1 <= len);
        }
        lemma_span_end_fits(regions.drop_first(), at, len);
    }
}

/// The next piece of markup in a row.
pub enum Token<'a> {
    /// The input ends in the middle of the row.
    End,
    /// A region, a comment, a processing instruction or a declaration; the offset past it.
    Skip(usize),
    /// A close tag: its name and the offset past it.
    Close(&'a [u8], usize),
    /// An open tag.
    Open(OpenTag<'a>),
}

impl<'a> Token<'a> {
    /// The token is `view`, and its offsets are offsets in `bytes`.
    pub open spec fn is_in(&self, bytes: Seq<u8>, view: TokenView) -> bool {
        match *self {
            Token::End => view is End,
            Token::Skip(next) => view == TokenView::Skip(next as int),
            Token::Close(name, after) => view == (TokenView::Close {
                name: name@,
                after: after as int,
            }),
            Token::Open(tag) => view == TokenView::Open(tag.seen_in(bytes)) && tag.fits(bytes),
        }
    }
}

/// Finds the first piece of markup at or after `cur`.
pub fn next_token<'a>(bytes: &'a [u8], cur: usize, regions: &[Range<usize>]) -> (found: Token<'a>)
    requires
        cur <= bytes@.len(),
        spans_fit(spans(regions@), bytes@.len() as int),
    ensures
        found.is_in(bytes@, token(bytes@, cur as int, spans(regions@))),
        match found {
            Token::End => true,
            Token::Skip(next) => cur < next <= bytes@.len(),
            Token::Close(_, after) => cur < after <= bytes@.len(),
            Token::Open(tag) => cur < tag.gt,
        },
{
    let len: usize = bytes.len();
    proof {
        lemma_token_advances(bytes@, cur as int, spans(regions@));
    }
    let lt: usize = match next_lt(bytes, cur) {
        Some(lt) => lt,
        None => {
            return Token::End;
        },
    };
    if lt + 1 >= len {
        return Token::End;
    }
    if in_region(regions, lt) {
        return Token::Skip(region_end(regions, lt));
    }
    if bytes[lt + 1] == SLASH {
        return match scan_close_tag(bytes, lt) {
            Some(t) => Token::Close(t.0, t.1),
            None => Token::End,
        };
    }
    if bytes[lt + 1] == BANG || bytes[lt + 1] == QUESTION {
        return match skip_construct(bytes, lt) {
            Some(after) => Token::Skip(after),
            None => Token::End,
        };
    }
    proof {
        lemma_open_tag_bounds(bytes@, lt as int);
    }
    match scan_open_tag(bytes, lt) {
        Some(tag) => Token::Open(tag),
        None => Token::End,
    }
}

/// `</` and the tag name.
pub open spec fn close_prefix(name: Seq<u8>) -> Seq<u8> {
    seq![LT, SLASH] + name
}

/// `</` and the tag name.
pub fn close_prefix_of(name: &[u8]) -> (prefix: Vec<u8>)
    ensures
        prefix@ == close_prefix(name@),
{
    let mut prefix: Vec<u8> = Vec::new();
    prefix.push(LT);
    prefix.push(SLASH);
    prefix.extend_from_slice(name);
    assert(prefix@ =~= close_prefix(name@));
    prefix
}

/// Finds the first `</Details>` at or after `from`, outside the regions, and returns the offset
/// just past it.
pub fn find_close_details(bytes: &[u8], from: usize, regions: &[Range<usize>]) -> (after: Option<
    usize,
>)
    requires
        from <= bytes@.len(),
    ensures
        offset(after) == (match close_extent(
            bytes@,
            close_prefix(encode_utf8("Details"@)),
            spans(regions@),
            from as int,
        ) {
            Some(extent) => Some(extent.1),
            None => None,
        }),
{
    let prefix = close_prefix_of("Details".as_bytes());
    find_close_after(bytes, from, &prefix, regions)
}

/// The raw text between `content_start` and the first close tag that starts with `pat`, and the
/// offset just past that close tag.
pub fn raw_text_until<'a>(
    bytes: &'a [u8],
    content_start: usize,
    pat: &[u8],
    regions: &[Range<usize>],
) -> (text: Option<(&'a [u8], usize)>)
    requires
        content_start <= bytes@.len(),
    ensures
        match (text, close_extent(bytes@, pat@, spans(regions@), content_start as int)) {
            (Some(t), Some(extent)) => content_start <= extent.0 <= bytes@.len() && t.0@
                == bytes@.subrange(content_start as int, extent.0) && t.1 == extent.1
                && content_start < t.1 <= bytes@.len(),
            (None, None) => true,
            _ => false,
        },
{
    let len: usize = bytes.len();
    match find_close_start(bytes, content_start, pat, regions) {
        Some(at) => match find_byte(bytes, GT, at + pat.len()) {
            Some(gt) => Some((slice_subrange(bytes, content_start, at), gt + 1)),
            None => None,
        },
        None => None,
    }
}

/// The text that follows from a value element with the body `raw`: an empty body, and one that
/// starts with markup, leave `text` as it was; of another body the part before any markup counts.
pub open spec fn text_after(text: Seq<char>, raw: Seq<u8>) -> Seq<char> {
    if raw.len() == 0 || raw[0] == LT {
        text
    } else {
        decoded(text_part(raw))
    }
}

/// The part of a body before the first `<`.
pub open spec fn text_part(raw: Seq<u8>) -> Seq<u8> {
    match byte_from(raw, LT, 0) {
        Some(cut) => raw.subrange(0, cut),
        None => raw,
    }
}

/// Decodes the part of a body before the first `<`.
pub fn decode_text(raw: &[u8]) -> (text: String)
    ensures
        text@ == decoded(text_part(raw@)),
{
    match find_byte(raw, LT, 0) {
        Some(cut) => decode_bytes(slice_subrange(raw, 0, cut)),
        None => decode_bytes(raw),
    }
}

/// Takes over the text of a value element, unless its body is empty or starts with markup.
pub fn assign_text(slot: &mut String, raw: &[u8])
    ensures
        final(slot)@ == text_after(old(slot)@, raw@),
{
    if raw.len() == 0 || raw[0] == LT {
        return;
    }
    *slot = decode_text(raw);
}

} // verus!
