//! Comments, CDATA sections and row starts in a byte string of markup.

use std::ops::Range;

use vstd::prelude::*;

use crate::bytes::{
    bytes_from, first_where, is_space, lemma_bytes_from, lemma_first_where, occurs_at,
    CARRIAGE_RETURN, GT, LINE_FEED, LT, SLASH, SPACE, TAB,
};

verus! {

/// `<!`
pub const DECLARATION_OPEN: [u8; 2] = [0x3c, 0x21];

/// `<!--`
pub const COMMENT_OPEN: [u8; 4] = [0x3c, 0x21, 0x2d, 0x2d];

/// `-->`
pub const COMMENT_CLOSE: [u8; 3] = [0x2d, 0x2d, 0x3e];

/// `<![CDATA[`
pub const CDATA_OPEN: [u8; 9] = [0x3c, 0x21, 0x5b, 0x43, 0x44, 0x41, 0x54, 0x41, 0x5b];

/// `]]>`
pub const CDATA_CLOSE: [u8; 3] = [0x5d, 0x5d, 0x3e];

/// The offsets that each range covers, as mathematical integers.
pub open spec fn spans(ranges: Seq<Range<usize>>) -> Seq<(int, int)> {
    Seq::new(ranges.len(), |i: int| (ranges[i].start as int, ranges[i].end as int))
}

/// `at` lies in the span.
pub open spec fn in_span(span: (int, int), at: int) -> bool {
    span.0 <= at < span.1
}

/// `at` lies in one of the spans.
pub open spec fn in_spans(spans: Seq<(int, int)>, at: int) -> bool {
    exists|k: int| 0 <= k < spans.len() && in_span(#[trigger] spans[k], at)
}

/// The end of the first span that covers `at`, or the offset after `at` where none does.
pub open spec fn span_end(spans: Seq<(int, int)>, at: int) -> int
    decreases spans.len(),
{
    if spans.len() == 0 {
        at + 1
    } else if in_span(spans[0], at) {
        spans[0].1
    } else {
        span_end(spans.drop_first(), at)
    }
}

/// The spans are not empty, lie in `lo..hi`, and follow one another without overlap.
pub open spec fn ordered_spans(spans: Seq<(int, int)>, lo: int, hi: int) -> bool {
    &&& forall|k: int| 0 <= k < spans.len() ==> lo <= (#[trigger] spans[k]).0 < spans[k].1 <= hi
    &&& forall|j: int, k: int|
        0 <= j < k < spans.len() ==> (#[trigger] spans[j]).1 <= (#[trigger] spans[k]).0
}

/// The offset just past the first `close` at or after `from`, or the end of the input.
pub open spec fn past_close(bytes: Seq<u8>, close: Seq<u8>, from: int) -> int {
    match bytes_from(bytes, close, from) {
        Some(at) => at + close.len(),
        None => bytes.len() as int,
    }
}

/// The end of the comment or CDATA section that opens at `at`; an unclosed one reaches to the
/// end of the input.
pub open spec fn construct_end(bytes: Seq<u8>, at: int) -> Option<int> {
    if occurs_at(bytes, COMMENT_OPEN@, at) {
        Some(past_close(bytes, COMMENT_CLOSE@, at + COMMENT_OPEN@.len()))
    } else if occurs_at(bytes, CDATA_OPEN@, at) {
        Some(past_close(bytes, CDATA_CLOSE@, at + CDATA_OPEN@.len()))
    } else {
        None
    }
}

/// A byte that ends the name in an open tag.
pub open spec fn ends_name(b: u8) -> bool {
    is_space(b) || b == GT || b == SLASH
}

/// An open tag of a `tag` element starts at `at`: `<`, the name, and a byte that ends the name.
pub open spec fn row_start_at(bytes: Seq<u8>, tag: Seq<u8>, at: int) -> bool {
    &&& 0 <= at
    &&& at + 1 + tag.len() < bytes.len()
    &&& bytes[at] == LT
    &&& occurs_at(bytes, tag, at + 1)
    &&& ends_name(bytes[at + 1 + tag.len()])
}

/// The offsets at which a row starts that lies in no skipped span.
pub open spec fn row_starts(
    bytes: Seq<u8>,
    tag: Seq<u8>,
    skip: Seq<(int, int)>,
) -> spec_fn(int) -> bool {
    |i: int| row_start_at(bytes, tag, i) && !in_spans(skip, i)
}

/// The first row start at or after `from` that lies in no skipped span.
pub open spec fn next_row(
    bytes: Seq<u8>,
    tag: Seq<u8>,
    skip: Seq<(int, int)>,
    from: int,
) -> Option<int> {
    first_where(from, bytes.len() as int, row_starts(bytes, tag, skip))
}

pub proof fn lemma_past_close(bytes: Seq<u8>, close: Seq<u8>, from: int)
    requires
        0 <= from <= bytes.len(),
    ensures
        from <= past_close(bytes, close, from) <= bytes.len(),
{
    lemma_bytes_from(bytes, close, from);
}

pub proof fn lemma_construct_end(bytes: Seq<u8>, at: int)
    ensures
        construct_end(bytes, at) matches Some(end) ==> 0 <= at && at + 4 <= end <= bytes.len(),
{
    if occurs_at(bytes, COMMENT_OPEN@, at) {
        lemma_past_close(bytes, COMMENT_CLOSE@, at + COMMENT_OPEN@.len());
    } else if occurs_at(bytes, CDATA_OPEN@, at) {
        lemma_past_close(bytes, CDATA_CLOSE@, at + CDATA_OPEN@.len());
    }
}

/// What `next_row` finds is a row start outside the skipped spans, and none lies before it.
pub proof fn lemma_next_row(bytes: Seq<u8>, tag: Seq<u8>, skip: Seq<(int, int)>, from: int)
    ensures
        match next_row(bytes, tag, skip, from) {
            Some(at) => from <= at && row_start_at(bytes, tag, at) && !in_spans(skip, at)
                && forall|j: int|
                from <= j < at ==> !(#[trigger] row_start_at(bytes, tag, j) && !in_spans(skip, j)),
            None => forall|j: int|
                from <= j ==> !(#[trigger] row_start_at(bytes, tag, j) && !in_spans(skip, j)),
        },
{
    let hit = row_starts(bytes, tag, skip);
    lemma_first_where(from, bytes.len() as int, hit);
    let end: int = match next_row(bytes, tag, skip, from) {
        Some(at) => at,
        None => bytes.len() as int,
    };
    assert forall|j: int| from <= j < end implies !(#[trigger] row_start_at(bytes, tag, j)
        && !in_spans(skip, j)) by {
        assert(!hit(j));
    }
}

/// The end of a covering span lies past the offset it covers.
pub proof fn lemma_span_end(spans: Seq<(int, int)>, at: int)
    ensures
        at < span_end(spans, at),
    decreases spans.len(),
{
    if spans.len() > 0 && !in_span(spans[0], at) {
        lemma_span_end(spans.drop_first(), at);
    }
}

/// Whether `at` lies in one of the regions.
pub fn in_region(regions: &[Range<usize>], at: usize) -> (yes: bool)
    ensures
        yes == in_spans(spans(regions@), at as int),
{
    let mut i: usize = 0;
    while i < regions.len()
        invariant
            i <= regions@.len(),
            forall|k: int| 0 <= k < i ==> !in_span(#[trigger] spans(regions@)[k], at as int),
        decreases regions@.len() - i,
    {
        if regions[i].start <= at && at < regions[i].end {
            assert(in_span(spans(regions@)[i as int], at as int));
            return true;
        }
        i += 1;
    }
    false
}

/// The end of the first region that covers `at`, or the offset after `at` where none does.
pub fn region_end(regions: &[Range<usize>], at: usize) -> (end: usize)
    requires
        at < usize::MAX,
    ensures
        end == span_end(spans(regions@), at as int),
{
    let mut i: usize = 0;
    assert(spans(regions@).subrange(0, regions@.len() as int) =~= spans(regions@));
    while i < regions.len()
        invariant
            i <= regions@.len(),
            span_end(spans(regions@), at as int) == span_end(
                spans(regions@).subrange(i as int, regions@.len() as int),
                at as int,
            ),
        decreases regions@.len() - i,
    {
        let ghost rest = spans(regions@).subrange(i as int, regions@.len() as int);
        assert(rest.drop_first() =~= spans(regions@).subrange(i + 1, regions@.len() as int));
        if regions[i].start <= at && at < regions[i].end {
            return regions[i].end;
        }
        i += 1;
    }
    at + 1
}

/// Whether the byte ends the name in an open tag.
pub fn is_name_end(b: u8) -> (yes: bool)
    ensures
        yes == ends_name(b),
{
    b == SPACE || b == TAB || b == CARRIAGE_RETURN || b == LINE_FEED || b == GT || b == SLASH
}

} // verus!
