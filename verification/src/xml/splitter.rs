//! Row boundaries in Crystal Reports XML.

use std::ops::Range;

use vstd::prelude::*;
use vstd::slice::{slice_subrange, slice_to_vec};

use crate::bytes::{
    byte_from, bytes_from, count_matches, find_byte, find_bytes, first_where, lemma_byte_from,
    lemma_bytes_from, lemma_first_where, lemma_first_where_is, occurrences, occurs_at, offset,
    same_bytes, starts_with_at, GT, LT,
};
use crate::markup::{
    construct_end, in_region, in_span, in_spans, is_name_end, lemma_construct_end, next_row,
    ordered_spans, row_start_at, row_starts, spans, CDATA_CLOSE, CDATA_OPEN, COMMENT_CLOSE,
    COMMENT_OPEN, DECLARATION_OPEN,
};
use crate::xml::tokens::{
    close_boundary_ok, close_prefix, close_prefix_of, closes_name_at, lemma_open_tag_bounds,
    open_tag, scan_open_tag,
};

verus! {

/// How far before a row start an open comment or CDATA section is looked for.
pub const SKIP_WINDOW: usize = 65536;

/// How much of a sample the bytes per row are estimated from.
pub const SAMPLE_LIMIT: usize = 65536;

/// The bytes per row where the sample holds no row.
pub const DEFAULT_ROW_BYTES: usize = 512;

/// Time spent on splitting: nothing is measured, both counters stay zero.
pub fn split_timing() -> (spent: (u64, u64))
    ensures
        spent == (0u64, 0u64),
{
    (0, 0)
}

/// The comment and CDATA spans from `from` on, each taken where it first opens.
pub open spec fn special_spans(bytes: Seq<u8>, from: int) -> Seq<(int, int)>
    decreases bytes.len() - from,
{
    match bytes_from(bytes, DECLARATION_OPEN@, from) {
        Some(start) => {
            proof {
                lemma_bytes_from(bytes, DECLARATION_OPEN@, from);
                lemma_construct_end(bytes, start);
            }
            match construct_end(bytes, start) {
                Some(end) => seq![(start, end)] + special_spans(bytes, end),
                None => special_spans(bytes, start + 1),
            }
        },
        None => Seq::empty(),
    }
}

/// The special spans are sorted, do not overlap, and lie in the input.
pub proof fn lemma_special_spans_ordered(bytes: Seq<u8>, from: int)
    ensures
        ordered_spans(special_spans(bytes, from), from, bytes.len() as int),
    decreases bytes.len() - from,
{
    lemma_bytes_from(bytes, DECLARATION_OPEN@, from);
    if let Some(start) = bytes_from(bytes, DECLARATION_OPEN@, from) {
        lemma_construct_end(bytes, start);
        match construct_end(bytes, start) {
            Some(end) => {
                lemma_special_spans_ordered(bytes, end);
            },
            None => {
                lemma_special_spans_ordered(bytes, start + 1);
            },
        }
    }
}

/// Each special span is a comment or a CDATA section, from its opener to just past its closer; an
/// unclosed one reaches to the end of the input.
pub proof fn spans_are_constructs(bytes: Seq<u8>, from: int)
    ensures
        forall|i: int|
            0 <= i < special_spans(bytes, from).len() ==> construct_end(
                bytes,
                (#[trigger] special_spans(bytes, from)[i]).0,
            ) == Some(special_spans(bytes, from)[i].1),
    decreases bytes.len() - from,
{
    lemma_bytes_from(bytes, DECLARATION_OPEN@, from);
    if let Some(start) = bytes_from(bytes, DECLARATION_OPEN@, from) {
        lemma_construct_end(bytes, start);
        match construct_end(bytes, start) {
            Some(end) => {
                spans_are_constructs(bytes, end);
                let rest = special_spans(bytes, end);
                let all = special_spans(bytes, from);
                assert forall|i: int| 0 <= i < all.len() implies construct_end(
                    bytes,
                    (#[trigger] all[i]).0,
                ) == Some(all[i].1) by {
                    if i > 0 {
                        assert(all[i] == rest[i - 1]);
                    }
                }
            },
            None => {
                spans_are_constructs(bytes, start + 1);
            },
        }
    }
}

/// Every opener of a comment or a CDATA section lies in a special span.
pub proof fn openers_lie_in_spans(bytes: Seq<u8>, at: int)
    requires
        occurs_at(bytes, COMMENT_OPEN@, at) || occurs_at(bytes, CDATA_OPEN@, at),
    ensures
        in_spans(special_spans(bytes, 0), at),
{
    lemma_opener_in_spans(bytes, 0, at);
}

proof fn lemma_opener_in_spans(bytes: Seq<u8>, from: int, at: int)
    requires
        construct_end(bytes, at) is Some,
        0 <= from <= at,
    ensures
        in_spans(special_spans(bytes, from), at),
    decreases bytes.len() - from,
{
    lemma_construct_end(bytes, at);
    lemma_bytes_from(bytes, DECLARATION_OPEN@, from);
    assert(occurs_at(bytes, DECLARATION_OPEN@, at)) by {
        let two = bytes.subrange(at, at + 2);
        if occurs_at(bytes, COMMENT_OPEN@, at) {
            let open = bytes.subrange(at, at + COMMENT_OPEN@.len());
            assert(two[0] == open[0] && two[1] == open[1]);
        } else {
            let open = bytes.subrange(at, at + CDATA_OPEN@.len());
            assert(two[0] == open[0] && two[1] == open[1]);
        }
        assert(two =~= DECLARATION_OPEN@);
    }
    let start = bytes_from(bytes, DECLARATION_OPEN@, from)->0;
    let all = special_spans(bytes, from);
    lemma_construct_end(bytes, start);
    match construct_end(bytes, start) {
        Some(end) => {
            assert(all[0] == (start, end));
            if at < end {
                assert(in_span(all[0], at));
            } else {
                lemma_opener_in_spans(bytes, end, at);
                let rest = special_spans(bytes, end);
                let i = choose|i: int| 0 <= i < rest.len() && in_span(#[trigger] rest[i], at);
                assert(all[i + 1] == rest[i]);
            }
        },
        None => {
            lemma_opener_in_spans(bytes, start + 1, at);
        },
    }
}

/// Locates the comment and CDATA regions, in which a row marker does not count.
///
/// Returns sorted byte ranges that do not overlap, and whether there are any.
pub fn find_special_regions(bytes: &[u8]) -> (found: (Vec<Range<usize>>, bool))
    ensures
        spans(found.0@) == special_spans(bytes@, 0),
        ordered_spans(spans(found.0@), 0, bytes@.len() as int),
        found.1 == (found.0@.len() > 0),
{
    let len: usize = bytes.len();
    let mut ranges: Vec<Range<usize>> = Vec::new();
    let mut pos: usize = 0;
    proof {
        lemma_special_spans_ordered(bytes@, 0);
        assert(spans(ranges@) =~= Seq::empty());
        assert(Seq::<(int, int)>::empty() + special_spans(bytes@, 0) =~= special_spans(bytes@, 0));
    }
    loop
        invariant
            len == bytes@.len(),
            pos <= len,
            spans(ranges@) + special_spans(bytes@, pos as int) == special_spans(bytes@, 0),
            ordered_spans(special_spans(bytes@, 0), 0, bytes@.len() as int),
        decreases len - pos,
    {
        let ghost before = ranges@;
        let start: usize = match find_bytes(bytes, &DECLARATION_OPEN, pos) {
            Some(start) => start,
            None => {
                assert(spans(ranges@) + Seq::<(int, int)>::empty() =~= spans(ranges@));
                let any = ranges.len() > 0;
                return (ranges, any);
            },
        };
        let closed: Option<usize> = if starts_with_at(bytes, &COMMENT_OPEN, start) {
            match find_bytes(bytes, &COMMENT_CLOSE, start + 4) {
                Some(close) => Some(close + 3),
                None => Some(len),
            }
        } else if starts_with_at(bytes, &CDATA_OPEN, start) {
            match find_bytes(bytes, &CDATA_CLOSE, start + 9) {
                Some(close) => Some(close + 3),
                None => Some(len),
            }
        } else {
            None
        };
        assert(offset(closed) == construct_end(bytes@, start as int));
        proof {
            lemma_construct_end(bytes@, start as int);
        }
        match closed {
            Some(end) => {
                ranges.push(start..end);
                proof {
                    assert(spans(ranges@) =~= spans(before).push((start as int, end as int)));
                    assert(spans(ranges@) + special_spans(bytes@, end as int) =~= spans(before) + (
                    seq![(start as int, end as int)] + special_spans(bytes@, end as int)));
                }
                pos = end;
            },
            None => {
                pos = start + 1;
            },
        }
    }
}

/// `<` and the tag name.
fn open_tag_bytes(tag: &[u8]) -> (full: Vec<u8>)
    ensures
        full@ == seq![LT] + tag@,
{
    let mut full: Vec<u8> = Vec::new();
    full.push(LT);
    full.extend_from_slice(tag);
    assert(full@ =~= seq![LT] + tag@);
    full
}

/// `<` and the tag name stand at `at` as one string just where they stand there in turn.
proof fn lemma_open_tag(bytes: Seq<u8>, tag: Seq<u8>, at: int)
    ensures
        occurs_at(bytes, seq![LT] + tag, at) == (0 <= at < bytes.len() && bytes[at] == LT
            && occurs_at(bytes, tag, at + 1)),
{
    let full = seq![LT] + tag;
    if 0 <= at && at + 1 + tag.len() <= bytes.len() {
        let here = bytes.subrange(at, at + 1 + tag.len());
        assert(here.len() == full.len());
        if bytes[at] == LT && occurs_at(bytes, tag, at + 1) {
            assert forall|i: int| 0 <= i < full.len() implies here[i] == full[i] by {
                if i > 0 {
                    assert(bytes.subrange(at + 1, at + 1 + tag.len())[i - 1] == tag[i - 1]);
                }
            }
            assert(here =~= full);
        }
        if here == full {
            assert(here[0] == full[0]);
            assert forall|i: int| 0 <= i < tag.len() implies bytes.subrange(
                at + 1,
                at + 1 + tag.len(),
            )[i] == tag[i] by {
                assert(here[i + 1] == full[i + 1]);
            }
            assert(bytes.subrange(at + 1, at + 1 + tag.len()) =~= tag);
        }
    }
}

/// Finds the next row start at or after `from`: `<`, the tag name, and white space, `>` or `/`,
/// in no skipped range.
pub fn next_row_start(bytes: &[u8], from: usize, tag: &[u8], skip: &[Range<usize>]) -> (at: Option<
    usize,
>)
    ensures
        offset(at) == next_row(bytes@, tag@, spans(skip@), from as int),
{
    let len: usize = bytes.len();
    let ghost hit = row_starts(bytes@, tag@, spans(skip@));
    if from >= len {
        return None;
    }
    let full = open_tag_bytes(tag);
    let mut pos: usize = from;
    loop
        invariant
            len == bytes@.len(),
            from <= pos <= len,
            full@ == seq![LT] + tag@,
            hit == row_starts(bytes@, tag@, spans(skip@)),
            forall|j: int| from <= j < pos ==> !#[trigger] hit(j),
        decreases len - pos,
    {
        proof {
            lemma_bytes_from(bytes@, full@, pos as int);
            let stop: int = match bytes_from(bytes@, full@, pos as int) {
                Some(at) => at,
                None => len as int,
            };
            assert forall|j: int| from <= j < stop implies !#[trigger] hit(j) by {
                if pos <= j {
                    lemma_open_tag(bytes@, tag@, j);
                }
            }
        }
        match find_bytes(bytes, &full, pos) {
            Some(at) => {
                let after: usize = at + full.len();
                proof {
                    lemma_open_tag(bytes@, tag@, at as int);
                }
                if after < len && is_name_end(bytes[after]) && !in_region(skip, at) {
                    proof {
                        assert(hit(at as int));
                        lemma_first_where_is(from as int, len as int, hit, Some(at as int));
                    }
                    return Some(at);
                }
                assert(!hit(at as int));
                pos = at + 1;
            },
            None => {
                proof {
                    lemma_first_where_is(from as int, len as int, hit, None);
                }
                return None;
            },
        }
    }
}

/// An `open` marker stands before `at`, at most `SKIP_WINDOW` bytes away, and no `close` marker
/// stands between the two.
pub open spec fn unclosed_before(
    bytes: Seq<u8>,
    open: Seq<u8>,
    close: Seq<u8>,
    at: int,
) -> bool {
    exists|p: int|
        {
            &&& at - SKIP_WINDOW <= p
            &&& p + open.len() <= at
            &&& #[trigger] occurs_at(bytes, open, p)
            &&& forall|c: int|
                p + open.len() <= c && c + close.len() <= at ==> !#[trigger] occurs_at(
                    bytes,
                    close,
                    c,
                )
        }
}

/// `at` lies behind an unclosed comment or CDATA opener that is near enough to be seen.
pub open spec fn near_open_construct(bytes: Seq<u8>, at: int) -> bool {
    unclosed_before(bytes, COMMENT_OPEN@, COMMENT_CLOSE@, at) || unclosed_before(
        bytes,
        CDATA_OPEN@,
        CDATA_CLOSE@,
        at,
    )
}

/// An occurrence in the first `to` bytes is one in `bytes` that ends at or before `to`.
proof fn lemma_occurs_in_head(bytes: Seq<u8>, needle: Seq<u8>, to: int, i: int)
    requires
        0 <= to <= bytes.len(),
    ensures
        occurs_at(bytes.subrange(0, to), needle, i) == (occurs_at(bytes, needle, i) && i
            + needle.len() <= to),
{
    if 0 <= i && i + needle.len() <= to {
        assert(bytes.subrange(0, to).subrange(i, i + needle.len()) =~= bytes.subrange(
            i,
            i + needle.len(),
        ));
    }
}

/// Looks backward from `at` for an `open` marker that no `close` marker follows before `at`.
fn is_unclosed_before(bytes: &[u8], open: &[u8], close: &[u8], at: usize) -> (yes: bool)
    requires
        at <= bytes@.len(),
        open@.len() > 0,
    ensures
        yes == unclosed_before(bytes@, open@, close@, at as int),
{
    let head = slice_subrange(bytes, 0, at);
    let mut search: usize = if at < SKIP_WINDOW {
        0
    } else {
        at - SKIP_WINDOW
    };
    loop
        invariant
            at <= bytes@.len(),
            open@.len() > 0,
            head@ == bytes@.subrange(0, at as int),
            at - SKIP_WINDOW <= search <= at,
            forall|p: int|
                at - SKIP_WINDOW <= p < search && p + open@.len() <= at && #[trigger] occurs_at(
                    bytes@,
                    open@,
                    p,
                ) ==> exists|c: int|
                    p + open@.len() <= c && c + close@.len() <= at && #[trigger] occurs_at(
                        bytes@,
                        close@,
                        c,
                    ),
        decreases at - search,
    {
        proof {
            lemma_bytes_from(head@, open@, search as int);
            assert forall|p: int| 0 <= p implies occurs_at(head@, open@, p) == (#[trigger] occurs_at(
                bytes@,
                open@,
                p,
            ) && p + open@.len() <= at) by {
                lemma_occurs_in_head(bytes@, open@, at as int, p);
            }
            assert forall|c: int| 0 <= c implies occurs_at(head@, close@, c) == (
            #[trigger] occurs_at(bytes@, close@, c) && c + close@.len() <= at) by {
                lemma_occurs_in_head(bytes@, close@, at as int, c);
            }
        }
        match find_bytes(head, open, search) {
            Some(p) => {
                proof {
                    lemma_bytes_from(head@, close@, p + open@.len());
                }
                match find_bytes(head, close, p + open.len()) {
                    Some(c) => {
                        assert(occurs_at(bytes@, close@, c as int));
                    },
                    None => {
                        assert(occurs_at(bytes@, open@, p as int));
                        return true;
                    },
                }
                search = p + 1;
            },
            None => {
                return false;
            },
        }
    }
}

/// Whether `at` lies behind an unclosed comment or CDATA opener that is near enough to be seen.
pub fn in_skip_region(bytes: &[u8], at: usize) -> (yes: bool)
    requires
        at <= bytes@.len(),
    ensures
        yes == near_open_construct(bytes@, at as int),
{
    is_unclosed_before(bytes, &COMMENT_OPEN, &COMMENT_CLOSE, at) || is_unclosed_before(
        bytes,
        &CDATA_OPEN,
        &CDATA_CLOSE,
        at,
    )
}

/// The offsets at which a row starts that lies behind no unclosed opener.
pub open spec fn open_row_starts(bytes: Seq<u8>, tag: Seq<u8>) -> spec_fn(int) -> bool {
    |i: int| row_start_at(bytes, tag, i) && !near_open_construct(bytes, i)
}

/// The first row start at or after `from` that lies behind no unclosed opener.
pub open spec fn next_open_row(bytes: Seq<u8>, tag: Seq<u8>, from: int) -> Option<int> {
    first_where(from, bytes.len() as int, open_row_starts(bytes, tag))
}

/// Finds the next row start at or after `from`, looking backward from each candidate for an
/// unclosed comment or CDATA section.
pub fn next_row_start_fast(bytes: &[u8], from: usize, tag: &[u8]) -> (at: Option<usize>)
    ensures
        offset(at) == next_open_row(bytes@, tag@, from as int),
        at matches Some(i) ==> from <= i && row_start_at(bytes@, tag@, i as int),
{
    let len: usize = bytes.len();
    let ghost hit = open_row_starts(bytes@, tag@);
    if from >= len {
        return None;
    }
    let full = open_tag_bytes(tag);
    let mut pos: usize = from;
    loop
        invariant
            len == bytes@.len(),
            from <= pos <= len,
            full@ == seq![LT] + tag@,
            hit == open_row_starts(bytes@, tag@),
            forall|j: int| from <= j < pos ==> !#[trigger] hit(j),
        decreases len - pos,
    {
        proof {
            lemma_bytes_from(bytes@, full@, pos as int);
            let stop: int = match bytes_from(bytes@, full@, pos as int) {
                Some(at) => at,
                None => len as int,
            };
            assert forall|j: int| from <= j < stop implies !#[trigger] hit(j) by {
                if pos <= j {
                    lemma_open_tag(bytes@, tag@, j);
                }
            }
        }
        match find_bytes(bytes, &full, pos) {
            Some(at) => {
                let after: usize = at + full.len();
                proof {
                    lemma_open_tag(bytes@, tag@, at as int);
                }
                if after < len && is_name_end(bytes[after]) && !in_skip_region(bytes, at) {
                    proof {
                        assert(hit(at as int));
                        lemma_first_where_is(from as int, len as int, hit, Some(at as int));
                    }
                    return Some(at);
                }
                assert(!hit(at as int));
                pos = at + 1;
            },
            None => {
                proof {
                    lemma_first_where_is(from as int, len as int, hit, None);
                }
                return None;
            },
        }
    }
}

/// Splits Crystal Reports XML on row boundaries, so that each chunk can be parsed on its own.
#[derive(Clone, Debug, Default)]
pub struct CrystalXmlSplitter {
    row_tag: Vec<u8>,
}

/// The offsets at which a close tag of a row stands that lies behind no unclosed opener.
pub open spec fn open_closes(bytes: Seq<u8>, tag: Seq<u8>) -> spec_fn(int) -> bool {
    |i: int|
        occurs_at(bytes, close_prefix(tag), i) && closes_name_at(
            bytes,
            i + close_prefix(tag).len(),
        ) && !near_open_construct(bytes, i)
}

/// The offset just past the row that starts at `row`: past the `>` of a self-closing row, past the
/// close tag of another one. A row that does not end reaches to the end of the input.
pub open spec fn record_end(bytes: Seq<u8>, tag: Seq<u8>, row: int) -> int {
    let len = bytes.len() as int;
    match open_tag(bytes, row) {
        None => len,
        Some(open) => if open.self_closing {
            open.after
        } else {
            match first_where(open.after, len, open_closes(bytes, tag)) {
                Some(close) => match byte_from(bytes, GT, close + close_prefix(tag).len()) {
                    Some(gt) => gt + 1,
                    None => len,
                },
                None => len,
            }
        },
    }
}

/// The offsets at which a row starts that neither starts nor ends behind an unclosed opener.
pub open spec fn record_rows(bytes: Seq<u8>, tag: Seq<u8>) -> spec_fn(int) -> bool {
    |i: int|
        row_start_at(bytes, tag, i) && !near_open_construct(bytes, i) && !near_open_construct(
            bytes,
            record_end(bytes, tag, i),
        )
}

/// The end of the first such row at or after `from`.
pub open spec fn next_record(bytes: Seq<u8>, tag: Seq<u8>, from: int) -> Option<int> {
    match first_where(from, bytes.len() as int, record_rows(bytes, tag)) {
        Some(row) => Some(record_end(bytes, tag, row)),
        None => None,
    }
}

/// A row ends past its start, in the input, and with a `>` unless it reaches to the end.
pub proof fn lemma_record_end(bytes: Seq<u8>, tag: Seq<u8>, row: int)
    requires
        0 <= row < bytes.len(),
    ensures
        row < record_end(bytes, tag, row) <= bytes.len(),
        record_end(bytes, tag, row) < bytes.len() ==> bytes[record_end(bytes, tag, row) - 1] == GT,
{
    lemma_open_tag_bounds(bytes, row);
    if let Some(open) = open_tag(bytes, row) {
        let hit = open_closes(bytes, tag);
        lemma_first_where(open.after, bytes.len() as int, hit);
        if let Some(close) = first_where(open.after, bytes.len() as int, hit) {
            lemma_byte_from(bytes, GT, close + close_prefix(tag).len());
        }
    }
}

/// Finds the first close tag of a row at or after `from`, looking backward from each candidate for
/// an unclosed comment or CDATA section.
fn next_close_fast(bytes: &[u8], from: usize, tag: &[u8]) -> (at: Option<usize>)
    requires
        from <= bytes@.len(),
    ensures
        offset(at) == first_where(from as int, bytes@.len() as int, open_closes(bytes@, tag@)),
        at matches Some(i) ==> i + 2 + tag@.len() < bytes@.len(),
{
    let len: usize = bytes.len();
    let ghost hit = open_closes(bytes@, tag@);
    let prefix = close_prefix_of(tag);
    let mut pos: usize = from;
    loop
        invariant
            len == bytes@.len(),
            from <= pos <= len,
            prefix@ == close_prefix(tag@),
            hit == open_closes(bytes@, tag@),
            forall|j: int| from <= j < pos ==> !#[trigger] hit(j),
        decreases len - pos,
    {
        proof {
            lemma_bytes_from(bytes@, prefix@, pos as int);
        }
        match find_bytes(bytes, &prefix, pos) {
            Some(at) => {
                if close_boundary_ok(bytes, at + prefix.len()) && !in_skip_region(bytes, at) {
                    proof {
                        assert(hit(at as int));
                        lemma_first_where_is(from as int, len as int, hit, Some(at as int));
                    }
                    return Some(at);
                }
                assert(!hit(at as int));
                pos = at + 1;
            },
            None => {
                proof {
                    lemma_first_where_is(from as int, len as int, hit, None);
                }
                return None;
            },
        }
    }
}

/// The offset just past the row that starts at `row`.
fn past_record(bytes: &[u8], tag: &[u8], row: usize) -> (end: usize)
    requires
        row < bytes@.len(),
    ensures
        end == record_end(bytes@, tag@, row as int),
        row < end <= bytes@.len(),
{
    proof {
        lemma_record_end(bytes@, tag@, row as int);
    }
    let len: usize = bytes.len();
    let open = match scan_open_tag(bytes, row) {
        Some(open) => open,
        None => {
            return len;
        },
    };
    if open.self_closing {
        return open.after();
    }
    match next_close_fast(bytes, open.after(), tag) {
        Some(close) => {
            match find_byte(bytes, GT, close + 2 + tag.len()) {
                Some(gt) => gt + 1,
                None => len,
            }
        },
        None => len,
    }
}

/// The bytes per row in a sample that holds `rows` row markers.
pub open spec fn row_bytes(sample: Seq<u8>, tag: Seq<u8>) -> int {
    let head = sample.take(if sample.len() < SAMPLE_LIMIT {
        sample.len() as int
    } else {
        SAMPLE_LIMIT as int
    });
    let rows = occurrences(head, seq![LT] + tag, 0);
    if rows == 0 {
        DEFAULT_ROW_BYTES as int
    } else if head.len() / rows == 0 {
        1
    } else {
        head.len() as int / rows as int
    }
}

impl CrystalXmlSplitter {
    /// The name of the row element.
    pub closed spec fn tag(&self) -> Seq<u8> {
        self.row_tag@
    }

    /// A splitter for the given row element name.
    pub fn with_row_tag(row_tag: &[u8]) -> (splitter: Self)
        ensures
            splitter.tag() == row_tag@,
    {
        CrystalXmlSplitter { row_tag: slice_to_vec(row_tag) }
    }

    /// The record boundary after `from`: the offset just past the first row that starts at or after
    /// `from`. A row that starts or ends behind an unclosed comment or CDATA section is passed
    /// over.
    pub fn next_record_start(&self, bytes: &[u8], from: usize) -> (at: Option<usize>)
        ensures
            offset(at) == next_record(bytes@, self.tag(), from as int),
            at matches Some(i) ==> from < i <= bytes@.len(),
    {
        let len: usize = bytes.len();
        let ghost hit = record_rows(bytes@, self.tag());
        let ghost starts = open_row_starts(bytes@, self.tag());
        if from >= len {
            return None;
        }
        let mut pos: usize = from;
        loop
            invariant
                len == bytes@.len(),
                from <= pos <= len,
                hit == record_rows(bytes@, self.tag()),
                starts == open_row_starts(bytes@, self.tag()),
                forall|j: int| from <= j < pos ==> !#[trigger] hit(j),
            decreases len - pos,
        {
            proof {
                lemma_first_where(pos as int, len as int, starts);
                let stop: int = match next_open_row(bytes@, self.tag(), pos as int) {
                    Some(row) => row,
                    None => len as int,
                };
                assert forall|j: int| from <= j < stop implies !#[trigger] hit(j) by {
                    if pos <= j {
                        assert(!starts(j));
                    }
                }
            }
            match next_row_start_fast(bytes, pos, &self.row_tag) {
                Some(row) => {
                    let end = past_record(bytes, &self.row_tag, row);
                    assert(starts(row as int));
                    if !in_skip_region(bytes, end) {
                        proof {
                            assert(hit(row as int));
                            lemma_first_where_is(from as int, len as int, hit, Some(row as int));
                        }
                        return Some(end);
                    }
                    assert(!hit(row as int));
                    pos = row + 1;
                },
                None => {
                    proof {
                        lemma_first_where_is(from as int, len as int, hit, None);
                    }
                    return None;
                },
            }
        }
    }

    /// Estimates the bytes per row from a sample: its length over the number of row markers in
    /// it, at least one.
    pub fn estimate_bytes_per_row(&self, sample: &[u8]) -> (estimate: usize)
        ensures
            estimate == row_bytes(sample@, self.tag()),
            estimate >= 1,
    {
        let end: usize = if sample.len() < SAMPLE_LIMIT {
            sample.len()
        } else {
            SAMPLE_LIMIT
        };
        let head = slice_subrange(sample, 0, end);
        let prefix = open_tag_bytes(&self.row_tag);
        let rows: usize = count_matches(head, &prefix);
        if rows == 0 {
            DEFAULT_ROW_BYTES
        } else {
            let estimate: usize = end / rows;
            if estimate == 0 {
                1
            } else {
                estimate
            }
        }
    }
}

/// How a comment or a CDATA section ends, by how it starts.
pub fn closer_for(opener: &[u8]) -> (closer: &'static [u8])
    ensures
        closer@ == (if opener@ == COMMENT_OPEN@ {
            COMMENT_CLOSE@
        } else {
            CDATA_CLOSE@
        }),
{
    if same_bytes(opener, &COMMENT_OPEN) {
        &COMMENT_CLOSE
    } else {
        &CDATA_CLOSE
    }
}

} // verus!
