//! Cutting a byte string into chunks of whole rows.

use std::ops::Range;

use vstd::prelude::*;

use crate::bytes::{
    find_byte, lemma_byte_from, lemma_first_where_is, offset, starts_with_at, LT,
};
use crate::markup::{
    in_region, in_spans, is_name_end, lemma_next_row, next_row, ordered_spans, row_start_at,
    row_starts, spans,
};
use crate::xml::splitter::special_spans;

verus! {

/// Locates the comment and CDATA regions, in which a row marker does not count.
///
/// Returns sorted byte ranges that do not overlap, and whether there are any.
pub fn find_special_regions(bytes: &[u8]) -> (found: (Vec<Range<usize>>, bool))
    ensures
        spans(found.0@) == special_spans(bytes@, 0),
        ordered_spans(spans(found.0@), 0, bytes@.len() as int),
        found.1 == (found.0@.len() > 0),
{
    crate::xml::splitter::find_special_regions(bytes)
}

/// Finds the next row start at or after `from`: `<`, the tag name, and white space, `>` or `/`,
/// in no skipped range.
pub fn next_row_start(bytes: &[u8], from: usize, tag: &[u8], skip: &[Range<usize>]) -> (at: Option<
    usize,
>)
    ensures
        offset(at) == next_row(bytes@, tag@, spans(skip@), from as int),
{
    let len: usize = bytes.len();
    let ghost hit = row_starts(bytes@, tag@, spans(skip@));
    if from >= len {
        return None;
    }
    let mut pos: usize = from;
    loop
        invariant
            len == bytes@.len(),
            from <= pos <= len,
            hit == row_starts(bytes@, tag@, spans(skip@)),
            forall|j: int| from <= j < pos ==> !#[trigger] hit(j),
        decreases len - pos,
    {
        proof {
            lemma_byte_from(bytes@, LT, pos as int);
        }
        match find_byte(bytes, LT, pos) {
            Some(at) => {
                if starts_with_at(bytes, tag, at + 1) {
                    let after: usize = at + 1 + tag.len();
                    if after < len && is_name_end(bytes[after]) && !in_region(skip, at) {
                        proof {
                            assert(hit(at as int));
                            lemma_first_where_is(from as int, len as int, hit, Some(at as int));
                        }
                        return Some(at);
                    }
                }
                assert(!hit(at as int));
                pos = at + 1;
            },
            None => {
                proof {
                    lemma_first_where_is(from as int, len as int, hit, None);
                }
                return None;
            },
        }
    }
}

/// The adjacent pairs of `points` that ascend.
pub open spec fn ascending_gaps(points: Seq<int>) -> Seq<(int, int)>
    decreases points.len(),
{
    if points.len() < 2 {
        Seq::empty()
    } else {
        let gaps = ascending_gaps(points.drop_last());
        let start = points[points.len() - 2];
        let end = points[points.len() - 1];
        if start < end {
            gaps.push((start, end))
        } else {
            gaps
        }
    }
}

/// `points` with one more split point for each nominal boundary `bytes.len() * k / chunks` with
/// `from <= k < chunks`: the next row start there or, where that does not lie after the last point,
/// the first row start that does. There is no answer once the rows run out.
pub open spec fn with_split_points(
    bytes: Seq<u8>,
    tag: Seq<u8>,
    chunks: int,
    from: int,
    points: Seq<int>,
) -> Option<Seq<int>>
    decreases chunks - from,
{
    let skip = special_spans(bytes, 0);
    if from >= chunks {
        Some(points)
    } else {
        match next_row(bytes, tag, skip, bytes.len() * from / chunks) {
            Some(at) => if at <= points.last() {
                match next_row(bytes, tag, skip, points.last() + 1) {
                    Some(next) => with_split_points(
                        bytes,
                        tag,
                        chunks,
                        from + 1,
                        points.push(next),
                    ),
                    None => None,
                }
            } else {
                with_split_points(bytes, tag, chunks, from + 1, points.push(at))
            },
            None => None,
        }
    }
}

/// The offsets at which `chunks` chunks would start and end, where the rows suffice for them.
pub open spec fn split_points(bytes: Seq<u8>, tag: Seq<u8>, chunks: int) -> Option<Seq<int>> {
    if chunks <= 1 || bytes.len() == 0 {
        None
    } else {
        match with_split_points(bytes, tag, chunks, 1, seq![0]) {
            Some(points) => Some(points.push(bytes.len() as int)),
            None => None,
        }
    }
}

/// The chunks of the input: the gaps between the split points, or the whole input where the rows do
/// not suffice.
pub open spec fn chunk_spans(bytes: Seq<u8>, tag: Seq<u8>, chunks: int) -> Seq<(int, int)> {
    match split_points(bytes, tag, chunks) {
        Some(points) => ascending_gaps(points),
        None => seq![(0, bytes.len() as int)],
    }
}

/// Split points as mathematical integers.
pub open spec fn as_points(points: Seq<usize>) -> Seq<int> {
    Seq::new(points.len(), |i: int| points[i] as int)
}

/// The whole input as one chunk.
fn whole(bytes: &[u8]) -> (ranges: Vec<Range<usize>>)
    ensures
        spans(ranges@) == seq![(0int, bytes@.len() as int)],
{
    let mut ranges: Vec<Range<usize>> = Vec::new();
    ranges.push(0..bytes.len());
    assert(spans(ranges@) =~= seq![(0int, bytes@.len() as int)]);
    ranges
}

/// The nominal start of chunk `i` of `chunks`.
fn nominal(len: usize, i: usize, chunks: usize) -> (at: usize)
    requires
        i < chunks,
    ensures
        at == (len as int) * (i as int) / (chunks as int),
{
    proof {
        assert(0 <= len * i <= u128::MAX) by (nonlinear_arith)
            requires
                0 <= len <= u64::MAX,
                0 <= i <= u64::MAX,
        ;
        assert(0 <= (len as int) * (i as int) / (chunks as int) <= len) by (nonlinear_arith)
            requires
                0 <= i < chunks,
                0 <= len,
        ;
    }
    ((len as u128) * (i as u128) / (chunks as u128)) as usize
}

/// The ascending gaps between split points as byte ranges.
pub fn gap_ranges(points: &[usize]) -> (ranges: Vec<Range<usize>>)
    ensures
        spans(ranges@) == ascending_gaps(as_points(points@)),
{
    let mut ranges: Vec<Range<usize>> = Vec::new();
    if points.len() < 2 {
        assert(spans(ranges@) =~= Seq::empty());
        return ranges;
    }
    let mut i: usize = 1;
    assert(as_points(points@).take(1).len() == 1);
    assert(spans(ranges@) =~= Seq::empty());
    while i < points.len()
        invariant
            1 <= i <= points@.len(),
            spans(ranges@) == ascending_gaps(as_points(points@).take(i as int)),
        decreases points@.len() - i,
    {
        let start: usize = points[i - 1];
        let end: usize = points[i];
        let ghost before = ranges@;
        assert(as_points(points@).take(i + 1).drop_last() =~= as_points(points@).take(i as int));
        if start < end {
            ranges.push(start..end);
            assert(spans(ranges@) =~= spans(before).push((start as int, end as int)));
        }
        i += 1;
    }
    assert(as_points(points@).take(points@.len() as int) =~= as_points(points@));
    ranges
}

/// Cuts the input into `num_chunks` byte ranges that start at row starts and together cover it
/// once.
///
/// The whole input is one range where `num_chunks <= 1`, where the input is empty, and where the
/// rows do not suffice for that many ranges.
pub fn compute_splits(bytes: &[u8], row_tag: &[u8], num_chunks: usize) -> (ranges: Vec<
    Range<usize>,
>)
    ensures
        spans(ranges@) == chunk_spans(bytes@, row_tag@, num_chunks as int),
        bytes@.len() > 0 ==> tile(spans(ranges@), 0, bytes@.len() as int),
        ranges@.len() == 1 || ranges@.len() == num_chunks,
{
    proof {
        if bytes@.len() > 0 {
            chunks_tile(bytes@, row_tag@, num_chunks as int);
        }
    }
    let len: usize = bytes.len();
    if num_chunks <= 1 || len == 0 {
        return whole(bytes);
    }
    let skip = find_special_regions(bytes).0;
    let mut points: Vec<usize> = Vec::new();
    points.push(0);
    assert(as_points(points@) =~= seq![0int]);
    let mut i: usize = 1;
    while i < num_chunks
        invariant
            len == bytes@.len(),
            len > 0,
            1 < num_chunks,
            1 <= i <= num_chunks,
            spans(skip@) == special_spans(bytes@, 0),
            points@.len() > 0,
            points@.last() < len,
            with_split_points(bytes@, row_tag@, num_chunks as int, 1, seq![0]) == with_split_points(
                bytes@,
                row_tag@,
                num_chunks as int,
                i as int,
                as_points(points@),
            ),
        decreases num_chunks - i,
    {
        let ghost before = points@;
        assert(as_points(before).last() == before.last());
        match next_row_start(bytes, nominal(len, i, num_chunks), row_tag, &skip) {
            Some(at) => {
                proof {
                    lemma_next_row(
                        bytes@,
                        row_tag@,
                        spans(skip@),
                        bytes@.len() * i / num_chunks as int,
                    );
                    lemma_next_row(bytes@, row_tag@, spans(skip@), before.last() + 1);
                }
                let last: usize = points[points.len() - 1];
                if at <= last {
                    match next_row_start(bytes, last + 1, row_tag, &skip) {
                        Some(next) => {
                            points.push(next);
                            assert(as_points(points@) =~= as_points(before).push(next as int));
                        },
                        None => {
                            return whole(bytes);
                        },
                    }
                } else {
                    points.push(at);
                    assert(as_points(points@) =~= as_points(before).push(at as int));
                }
            },
            None => {
                return whole(bytes);
            },
        }
        i += 1;
    }
    let ghost before = points@;
    points.push(len);
    assert(as_points(points@) =~= as_points(before).push(len as int));
    gap_ranges(&points)
}

/// A chunk may start or end at `at`: at a row start outside the skipped spans.
pub open spec fn cuts_at(bytes: Seq<u8>, tag: Seq<u8>, at: int) -> bool {
    row_start_at(bytes, tag, at) && !in_spans(special_spans(bytes, 0), at)
}

/// The split points ascend from zero; each of the others is a place to cut.
pub proof fn lemma_with_split_points(
    bytes: Seq<u8>,
    tag: Seq<u8>,
    chunks: int,
    from: int,
    points: Seq<int>,
)
    requires
        points.len() > 0,
        points[0] == 0,
        ascends(points),
        forall|i: int| 0 < i < points.len() ==> cuts_at(bytes, tag, #[trigger] points[i]),
    ensures
        with_split_points(bytes, tag, chunks, from, points) matches Some(all) ==> all.len()
            == points.len() + (if from < chunks {
            chunks - from
        } else {
            0
        }) && all[0] == 0 && ascends(all) && forall|i: int|
            0 < i < all.len() ==> cuts_at(bytes, tag, #[trigger] all[i]),
    decreases chunks - from,
{
    let skip = special_spans(bytes, 0);
    if from < chunks {
        lemma_next_row(bytes, tag, skip, bytes.len() * from / chunks);
        lemma_next_row(bytes, tag, skip, points.last() + 1);
        if let Some(at) = next_row(bytes, tag, skip, bytes.len() * from / chunks) {
            if at <= points.last() {
                if let Some(next) = next_row(bytes, tag, skip, points.last() + 1) {
                    lemma_with_split_points(bytes, tag, chunks, from + 1, points.push(next));
                }
            } else {
                lemma_with_split_points(bytes, tag, chunks, from + 1, points.push(at));
            }
        }
    }
}

/// Each gap goes from one point to the next, and is not empty.
proof fn lemma_gaps(points: Seq<int>)
    ensures
        forall|i: int|
            0 <= i < ascending_gaps(points).len() ==> {
                let gap = #[trigger] ascending_gaps(points)[i];
                &&& gap.0 < gap.1
                &&& points.drop_last().contains(gap.0)
                &&& points.drop_first().contains(gap.1)
            },
    decreases points.len(),
{
    if points.len() >= 2 {
        let front = points.drop_last();
        lemma_gaps(front);
        let gaps = ascending_gaps(points);
        assert forall|i: int| 0 <= i < gaps.len() implies {
            let gap = #[trigger] gaps[i];
            &&& gap.0 < gap.1
            &&& points.drop_last().contains(gap.0)
            &&& points.drop_first().contains(gap.1)
        } by {
            let n = points.len() as int;
            if i < ascending_gaps(front).len() {
                let gap = ascending_gaps(front)[i];
                assert(gaps[i] == gap);
                let a = choose|a: int| 0 <= a < front.drop_last().len() && front.drop_last()[a] == gap.0;
                assert(points.drop_last()[a] == gap.0);
                let b = choose|b: int|
                    0 <= b < front.drop_first().len() && front.drop_first()[b] == gap.1;
                assert(points.drop_first()[b] == gap.1);
            } else {
                assert(points.drop_last()[n - 2] == gaps[i].0);
                assert(points.drop_first()[n - 2] == gaps[i].1);
            }
        }
    }
}

/// Each chunk of an input lies in it and is not empty; it starts at the start or at a row start,
/// and ends at the end or at a row start. None of these row starts lies in a skipped span.
pub proof fn chunks_hold_whole_rows(bytes: Seq<u8>, tag: Seq<u8>, chunks: int)
    requires
        bytes.len() > 0,
    ensures
        chunk_spans(bytes, tag, chunks).len() > 0,
        forall|i: int|
            0 <= i < chunk_spans(bytes, tag, chunks).len() ==> {
                let chunk = #[trigger] chunk_spans(bytes, tag, chunks)[i];
                &&& 0 <= chunk.0 < chunk.1 <= bytes.len()
                &&& chunk.0 == 0 || cuts_at(bytes, tag, chunk.0)
                &&& chunk.1 == bytes.len() || cuts_at(bytes, tag, chunk.1)
            },
{
    if let Some(points) = split_points(bytes, tag, chunks) {
        lemma_with_split_points(bytes, tag, chunks, 1, seq![0]);
        lemma_gaps(points);
        let gaps = ascending_gaps(points);
        assert forall|i: int| 0 <= i < gaps.len() implies {
            let chunk = #[trigger] gaps[i];
            &&& 0 <= chunk.0 < chunk.1 <= bytes.len()
            &&& chunk.0 == 0 || cuts_at(bytes, tag, chunk.0)
            &&& chunk.1 == bytes.len() || cuts_at(bytes, tag, chunk.1)
        } by {
            let gap = gaps[i];
            let a = choose|a: int|
                0 <= a < points.drop_last().len() && points.drop_last()[a] == gap.0;
            assert(points[a] == gap.0);
            let b = choose|b: int|
                0 <= b < points.drop_first().len() && points.drop_first()[b] == gap.1;
            assert(points[b + 1] == gap.1);
        }
    }
}

/// Each point lies after those before it.
pub open spec fn ascends(points: Seq<int>) -> bool {
    forall|i: int, j: int| 0 <= i < j < points.len() ==> points[i] < points[j]
}

/// The spans are not empty and follow one another without a gap, from `lo` to `hi`.
pub open spec fn tile(spans: Seq<(int, int)>, lo: int, hi: int) -> bool {
    &&& spans.len() > 0
    &&& spans[0].0 == lo
    &&& spans.last().1 == hi
    &&& forall|i: int| 0 <= i < spans.len() ==> (#[trigger] spans[i]).0 < spans[i].1
    &&& forall|i: int, j: int|
        0 <= i && j == i + 1 && j < spans.len() ==> (#[trigger] spans[i]).1 == (
        #[trigger] spans[j]).0
}

/// The gaps between ascending points tile what lies between the first and the last.
pub proof fn lemma_gaps_tile(points: Seq<int>)
    requires
        points.len() >= 2,
        ascends(points),
    ensures
        tile(ascending_gaps(points), points[0], points.last()),
        ascending_gaps(points).len() == points.len() - 1,
    decreases points.len(),
{
    let front = points.drop_last();
    let gaps = ascending_gaps(points);
    if points.len() == 2 {
        assert(ascending_gaps(front).len() == 0);
        assert(gaps =~= seq![(points[0], points[1])]);
    } else {
        assert(front.last() == points[points.len() - 2]);
        lemma_gaps_tile(front);
        let before = ascending_gaps(front);
        assert(gaps == before.push((front.last(), points.last())));
        assert forall|i: int| 0 <= i < gaps.len() implies (#[trigger] gaps[i]).0 < gaps[i].1 by {
            if i < before.len() {
                assert(gaps[i] == before[i]);
            }
        }
        assert forall|i: int, j: int| 0 <= i && j == i + 1 && j < gaps.len() implies (
        #[trigger] gaps[i]).1 == (#[trigger] gaps[j]).0 by {
            assert(gaps[i] == before[i]);
            if j < before.len() {
                assert(gaps[j] == before[j]);
            }
        }
        assert(gaps[0] == before[0]);
    }
}

/// The chunks tile the input, whatever their number: together they are the whole of it, and no two
/// overlap. There are as many as were asked for, or there is one.
pub proof fn chunks_tile(bytes: Seq<u8>, tag: Seq<u8>, chunks: int)
    requires
        bytes.len() > 0,
    ensures
        tile(chunk_spans(bytes, tag, chunks), 0, bytes.len() as int),
        chunk_spans(bytes, tag, chunks).len() == chunks || chunk_spans(bytes, tag, chunks).len()
            == 1,
{
    if let Some(points) = split_points(bytes, tag, chunks) {
        lemma_with_split_points(bytes, tag, chunks, 1, seq![0]);
        lemma_gaps_tile(points);
    }
}

} // verus!
