//! What is decided about an input: how it is opened and cut, how much room is made for it, and how
//! a failure is reported.

use vstd::prelude::*;
use std::ops::Range;
use vstd::utf8::{decode_utf8, encode_utf8, valid_utf8};

use crate::bytes::{bytes_from, lemma_bytes_from, occurrences, occurs_at};
use crate::column::{dict_texts, opt_codes, opt_texts};
use crate::columnar::{engine_views, listed_views, ColumnarEngine};
use crate::error::{Error, ErrorClass};
use crate::input::{
    expected_rows, is_compressed, maps_file, GZIP_MAGIC, LZ4_MAGIC, MAP_THRESHOLD, ZSTD_MAGIC,
};
use crate::markup::{lemma_next_row, next_row, row_start_at, spans};
use crate::numbers::decimal;
use crate::plan::{texts, FieldType};
use crate::splitter::{as_points, ascending_gaps, chunk_spans, cuts_at, with_split_points};
use crate::stream::{as_lens, row_lens};
use crate::xml::decoder::bad_chunk;
use crate::xml::reader::{chunks_at, read_in_chunks, MergingSink, ReadEnd};
use crate::xml::scanner::{chunk_flow, FIELD_OPEN};
use crate::xml::sink::{row_view, rows_view};
use crate::xml::splitter::{row_bytes, special_spans};

verus! {

/// Files are mapped into memory from fifty mebibytes on.
pub proof fn files_are_mapped_from_fifty_mebibytes_on()
    ensures
        MAP_THRESHOLD == 50 * 1024 * 1024,
{
}

/// A file is compressed if and only if it starts as a gzip, zstd or lz4 file does.
pub proof fn compressed_files_are_known_by_their_start(head: Seq<u8>)
    ensures
        is_compressed(head) <==> {
            ||| head.len() >= 2 && head[0] == 0x1f && head[1] == 0x8b
            ||| head.len() >= 4 && head[0] == 0x28 && head[1] == 0xb5 && head[2] == 0x2f && head[3]
                == 0xfd
            ||| head.len() >= 4 && head[0] == 0x04 && head[1] == 0x22 && head[2] == 0x4d && head[3]
                == 0x18
        },
{
    let gzip = GZIP_MAGIC@;
    let zstd = ZSTD_MAGIC@;
    let lz4 = LZ4_MAGIC@;
    if head.len() >= 2 {
        let h = head.subrange(0, 2);
        assert(h[0] == head[0] && h[1] == head[1]);
        if head[0] == 0x1f && head[1] == 0x8b {
            assert(h =~= gzip);
        }
        if h == gzip {
            assert(gzip[0] == 0x1f && gzip[1] == 0x8b);
        }
    }
    if head.len() >= 4 {
        let h = head.subrange(0, 4);
        assert(h[0] == head[0] && h[1] == head[1] && h[2] == head[2] && h[3] == head[3]);
        if head[0] == 0x28 && head[1] == 0xb5 && head[2] == 0x2f && head[3] == 0xfd {
            assert(h =~= zstd);
        }
        if head[0] == 0x04 && head[1] == 0x22 && head[2] == 0x4d && head[3] == 0x18 {
            assert(h =~= lz4);
        }
        if h == zstd {
            assert(zstd[0] == 0x28 && zstd[1] == 0xb5 && zstd[2] == 0x2f && zstd[3] == 0xfd);
        }
        if h == lz4 {
            assert(lz4[0] == 0x04 && lz4[1] == 0x22 && lz4[2] == 0x4d && lz4[3] == 0x18);
        }
    }
}

/// Room is made for as many rows of the given size as fit, where a row is taken to have at least
/// 512 bytes, and for 64 rows at least.
pub proof fn room_is_made_for_the_rows_that_fit(len: nat, size: nat)
    ensures
        expected_rows(len, size) >= 64,
        ({
            let each = if size < 512 {
                512
            } else {
                size
            };
            let rows = expected_rows(len, size);
            &&& rows > 64 ==> rows * each <= len
            &&& len < (rows + 1) * each
        }),
{
    let each = if size < 512 {
        512
    } else {
        size
    };
    let fit = len / each;
    assert(fit * each <= len < (fit + 1) * each) by (nonlinear_arith)
        requires
            each >= 512,
            fit == len / each,
    ;
    let rows = expected_rows(len, size);
    assert((fit + 1) * each <= (rows + 1) * each) by (nonlinear_arith)
        requires
            fit <= rows,
            each >= 512,
    ;
}

/// A pair is a gap between points if and only if the points stand next to each other and ascend.
pub proof fn gaps_lie_between_neighbours(points: Seq<int>, a: int, b: int)
    ensures
        ascending_gaps(points).contains((a, b)) <==> exists|i: int|
            0 < i < points.len() && points[i - 1] == a && #[trigger] points[i] == b && a < b,
    decreases points.len(),
{
    if points.len() >= 2 {
        let front = points.drop_last();
        let n = points.len() - 1;
        let before = ascending_gaps(front);
        let all = ascending_gaps(points);
        gaps_lie_between_neighbours(front, a, b);
        assert(forall|i: int| 0 <= i < front.len() ==> front[i] == points[i]);
        if before.contains((a, b)) {
            let k = choose|k: int| 0 <= k < before.len() && before[k] == (a, b);
            assert(all[k] == (a, b));
            let i = choose|i: int|
                0 < i < front.len() && front[i - 1] == a && #[trigger] front[i] == b && a < b;
            assert(points[i] == b);
        }
        if all.contains((a, b)) && !before.contains((a, b)) {
            let k = choose|k: int| 0 <= k < all.len() && all[k] == (a, b);
            if k < before.len() {
                assert(before[k] == (a, b));
            }
            assert(points[n] == b);
        }
        if exists|i: int|
            0 < i < points.len() && points[i - 1] == a && #[trigger] points[i] == b && a < b {
            let i = choose|i: int|
                0 < i < points.len() && points[i - 1] == a && #[trigger] points[i] == b && a < b;
            if i < n {
                assert(front[i] == b && front[i - 1] == a);
            } else {
                assert(all[before.len() as int] == (a, b));
            }
        }
    }
}

/// Each split point is the first row start that lies neither before its share of the input nor at
/// or before the split point before it.
pub proof fn chunks_are_cut_at_their_share(
    bytes: Seq<u8>,
    tag: Seq<u8>,
    chunks: int,
    from: int,
    points: Seq<int>,
    k: int,
    p: int,
)
    requires
        points.len() > 0,
        0 <= from,
        from <= k < chunks,
    ensures
        with_split_points(bytes, tag, chunks, from, points) matches Some(all) ==> {
            let i = points.len() + k - from;
            &&& i < all.len()
            &&& forall|j: int| 0 <= j < points.len() ==> #[trigger] all[j] == points[j]
            &&& bytes.len() * k / chunks <= all[i]
            &&& all[i - 1] < all[i]
            &&& cuts_at(bytes, tag, all[i])
            &&& bytes.len() * k / chunks <= p && all[i - 1] < p < all[i] ==> !cuts_at(
                bytes,
                tag,
                p,
            )
        },
    decreases chunks - from,
{
    let skip = special_spans(bytes, 0);
    let share = bytes.len() * from / chunks;
    lemma_next_row(bytes, tag, skip, share);
    lemma_next_row(bytes, tag, skip, points.last() + 1);
    if let Some(at) = next_row(bytes, tag, skip, share) {
        let next = if at <= points.last() {
            next_row(bytes, tag, skip, points.last() + 1)
        } else {
            Some(at)
        };
        if let Some(point) = next {
            let more = points.push(point);
            if from == k {
                lemma_points_kept(bytes, tag, chunks, from + 1, more);
                if let Some(all) = with_split_points(bytes, tag, chunks, from, points) {
                    assert(all[points.len() as int] == more[points.len() as int]);
                    assert(all[points.len() - 1] == more[points.len() - 1]);
                    if cuts_at(bytes, tag, p) {
                        assert(row_start_at(bytes, tag, p));
                    }
                    if at <= points.last() {
                        assert(row_start_at(bytes, tag, point));
                        assert(share <= at);
                    }
                    assert forall|j: int| 0 <= j < points.len() implies #[trigger] all[j]
                        == points[j] by {
                        assert(all[j] == more[j]);
                    }
                }
            } else {
                chunks_are_cut_at_their_share(bytes, tag, chunks, from + 1, more, k, p);
                if let Some(all) = with_split_points(bytes, tag, chunks, from, points) {
                    assert forall|j: int| 0 <= j < points.len() implies #[trigger] all[j]
                        == points[j] by {
                        assert(all[j] == more[j]);
                    }
                }
            }
        }
    }
}

/// The points that are there stay, in front of those that are added.
proof fn lemma_points_kept(
    bytes: Seq<u8>,
    tag: Seq<u8>,
    chunks: int,
    from: int,
    points: Seq<int>,
)
    requires
        points.len() > 0,
    ensures
        with_split_points(bytes, tag, chunks, from, points) matches Some(all) ==> points.len()
            <= all.len() && forall|j: int| 0 <= j < points.len() ==> #[trigger] all[j] == points[j],
    decreases chunks - from,
{
    let skip = special_spans(bytes, 0);
    if from < chunks {
        if let Some(at) = next_row(bytes, tag, skip, bytes.len() * from / chunks) {
            let next = if at <= points.last() {
                next_row(bytes, tag, skip, points.last() + 1)
            } else {
                Some(at)
            };
            if let Some(point) = next {
                let more = points.push(point);
                lemma_points_kept(bytes, tag, chunks, from + 1, more);
                if let Some(all) = with_split_points(bytes, tag, chunks, from, points) {
                    assert forall|j: int| 0 <= j < points.len() implies #[trigger] all[j]
                        == points[j] by {
                        assert(all[j] == more[j]);
                    }
                }
            }
        }
    }
}

/// The input is cut into chunks as long as rows suffice: where one of the shares has no row start
/// left for it, the input stays whole.
pub proof fn input_without_enough_rows_stays_whole(
    bytes: Seq<u8>,
    tag: Seq<u8>,
    chunks: int,
)
    ensures
        chunks <= 1 || bytes.len() == 0 ==> chunk_spans(bytes, tag, chunks) == seq![
            (0int, bytes.len() as int),
        ],
        chunks > 1 && bytes.len() > 0 && (forall|p: int| !#[trigger] cuts_at(bytes, tag, p))
            ==> chunk_spans(bytes, tag, chunks) == seq![(0int, bytes.len() as int)],
{
    let skip = special_spans(bytes, 0);
    if chunks > 1 && bytes.len() > 0 {
        lemma_next_row(bytes, tag, skip, bytes.len() * 1int / chunks);
        if let Some(at) = next_row(bytes, tag, skip, bytes.len() * 1int / chunks) {
            assert(cuts_at(bytes, tag, at));
        }
    }
}

/// A failure keeps its message. Bytes that are no text, and a plan's message that speaks of the XML
/// or of UTF-8, are failures of the XML; any other failure of a plan is one of the plan, and a
/// failed merge or read is what it is.
pub proof fn failures_are_reported_as_what_they_are(error: Error)
    ensures
        error is Utf8 ==> error.reported() == (
            ErrorClass::Xml,
            "Columnar parse error: "@ + "invalid UTF-8: invalid utf-8 sequence"@,
        ),
        error matches Error::Plan(message) ==> {
            let xml = {
                ||| occurs_at(encode_utf8(message@), encode_utf8("XML parse error"@), 0)
                ||| occurs_at(encode_utf8(message@), encode_utf8("invalid UTF-8"@), 0)
            };
            &&& xml ==> error.reported() == (
                ErrorClass::Xml,
                "Columnar parse error: "@ + message@,
            )
            &&& !xml ==> error.reported() == (ErrorClass::Plan, message@)
        },
        error matches Error::Merge(message) ==> error.reported() == (ErrorClass::Merge, message@),
        error matches Error::Io(message) ==> error.reported() == (ErrorClass::Io, message@),
        error matches Error::Arrow(message) ==> error.reported() == (
            ErrorClass::Other,
            "Arrow error: "@ + message@,
        ),
{
}

/// Where a needle occurs first, it is counted once, and the count goes on after it; where it does
/// not occur, the count is zero.
pub proof fn occurrences_are_counted_one_by_one(s: Seq<u8>, needle: Seq<u8>, from: int, at: int)
    requires
        needle.len() > 0,
        0 <= from,
    ensures
        (forall|j: int| from <= j ==> !#[trigger] occurs_at(s, needle, j)) ==> occurrences(
            s,
            needle,
            from,
        ) == 0,
        from <= at && occurs_at(s, needle, at) && (forall|j: int|
            from <= j < at ==> !#[trigger] occurs_at(s, needle, j)) ==> occurrences(s, needle, from)
            == 1 + occurrences(s, needle, at + needle.len()),
{
    lemma_bytes_from(s, needle, from);
    if let Some(i) = bytes_from(s, needle, from) {
        assert(occurs_at(s, needle, i));
        if from <= at && occurs_at(s, needle, at) && (forall|j: int|
            from <= j < at ==> !#[trigger] occurs_at(s, needle, j)) {
            assert(i == at);
        }
    }
}

/// The bytes per row are those of the sample, of which at most the first 65536 count, over the rows
/// that start in it; at least one, and 512 where no row starts.
pub proof fn bytes_per_row_are_estimated(sample: Seq<u8>, tag: Seq<u8>)
    ensures
        ({
            let head = sample.take(if sample.len() < 65536 {
                sample.len() as int
            } else {
                65536
            });
            let rows = occurrences(head, seq![0x3cu8] + tag, 0);
            let each = row_bytes(sample, tag);
            &&& rows == 0 ==> each == 512
            &&& rows > 0 ==> each >= 1 && head.len() < rows * (each + 1)
            &&& rows > 0 && each > 1 ==> rows * each <= head.len()
        }),
{
    let head = sample.take(if sample.len() < 65536 {
        sample.len() as int
    } else {
        65536
    });
    let rows = occurrences(head, seq![0x3cu8] + tag, 0);
    if rows > 0 {
        let fit = head.len() as int / rows as int;
        let n = head.len() as int;
        let r = rows as int;
        assert(r * fit <= n < r * (fit + 1)) by (nonlinear_arith)
            requires
                r > 0,
                n >= 0,
                fit == n / r,
        ;
        assert(head.len() / rows == fit);
        let each = row_bytes(sample, tag);
        assert(r * (fit + 1) <= r * (each + 1)) by (nonlinear_arith)
            requires
                r > 0,
                fit <= each,
        ;
    }
}

/// Lists are shown entry by entry, each as it is.
pub proof fn lists_are_shown_as_they_are(
    names: Seq<String>,
    cells: Seq<Option<String>>,
    codes: Seq<Option<usize>>,
    points: Seq<usize>,
    ranges: Seq<Range<usize>>,
    engines: Seq<ColumnarEngine>,
    columns: Seq<(String, FieldType)>,
    row: Seq<(String, String)>,
    rows: Seq<Vec<(String, String)>>,
    i: int,
)
    ensures
        texts(names).len() == names.len() && dict_texts(names).len() == names.len(),
        0 <= i < names.len() ==> texts(names)[i] == names[i]@ && dict_texts(names)[i] == names[i]@,
        opt_texts(cells).len() == cells.len(),
        0 <= i < cells.len() ==> match cells[i] {
            Some(s) => opt_texts(cells)[i] == Some(s@),
            None => opt_texts(cells)[i] is None,
        },
        opt_codes(codes).len() == codes.len(),
        0 <= i < codes.len() ==> match codes[i] {
            Some(code) => opt_codes(codes)[i] == Some(code as int),
            None => opt_codes(codes)[i] is None,
        },
        as_points(points).len() == points.len() && as_lens(points).len() == points.len(),
        0 <= i < points.len() ==> as_points(points)[i] == points[i] && as_lens(points)[i]
            == points[i],
        spans(ranges).len() == ranges.len(),
        0 <= i < ranges.len() ==> spans(ranges)[i] == (
            ranges[i].start as int,
            ranges[i].end as int,
        ),
        engine_views(engines).len() == engines.len(),
        0 <= i < engines.len() ==> engine_views(engines)[i] == engines[i]@,
        listed_views(columns).len() == columns.len(),
        0 <= i < columns.len() ==> listed_views(columns)[i] == (columns[i].0@, columns[i].1),
        row_view(row).len() == row.len(),
        0 <= i < row.len() ==> row_view(row)[i] == (row[i].0@, row[i].1@),
        rows_view(rows).len() == rows.len(),
        0 <= i < rows.len() ==> rows_view(rows)[i] == row_view(rows[i]@),
        row_lens(rows_view(rows)).len() == rows.len(),
        0 <= i < rows.len() ==> row_lens(rows_view(rows))[i] == rows[i]@.len(),
{
}

/// A chunk that is refused is named by where it starts and where it ends.
pub proof fn refused_chunks_are_named_by_their_ends(start: int, end: int)
    ensures
        ({
            let text = bad_chunk(start, end);
            let words = "Columnar parse error in chunk "@;
            let first = decode_utf8(decimal(start));
            let last = decode_utf8(decimal(end));
            let at = (words.len() + first.len()) as int;
            &&& text.take(words.len() as int) == words
            &&& text.subrange(words.len() as int, at) == first
            &&& text[at] == '.' && text[at + 1] == '.'
            &&& text.subrange(at + 2, at + 2 + last.len()) == last
            &&& text.skip(at + 2 + last.len()) == ": invalid UTF-8: invalid utf-8 sequence"@
        }),
{
    reveal_strlit("..");
    let text = bad_chunk(start, end);
    let words = "Columnar parse error in chunk "@;
    let first = decode_utf8(decimal(start));
    let last = decode_utf8(decimal(end));
    let tail = ": invalid UTF-8: invalid utf-8 sequence"@;
    let at = (words.len() + first.len()) as int;
    assert(text.take(words.len() as int) =~= words);
    assert(text.subrange(words.len() as int, at) =~= first);
    assert(text.subrange(at + 2, at + 2 + last.len()) =~= last);
    assert(text.skip(at + 2 + last.len()) =~= tail);
}

/// The first chunk that is no text ends the reading of chunks, and so does the first whose rows do
/// not go with those before it: what is there stays, and no chunk behind it is read.
pub proof fn first_refused_chunk_ends_the_reading<S: MergingSink>(
    bytes: Seq<u8>,
    chunks: Seq<(int, int)>,
    k: int,
    row_tag: Seq<u8>,
    m: S::Model,
    before: S::Model,
)
    requires
        0 <= k < chunks.len(),
        read_in_chunks::<S>(bytes, chunks.take(k), row_tag, m) == (ReadEnd::Done { m: before }),
    ensures
        ({
            let chunk = bytes.subrange(chunks[k].0, chunks[k].1);
            let rows = chunk_flow::<S>(chunk, row_tag, S::cleared(before));
            let end = read_in_chunks::<S>(bytes, chunks, row_tag, m);
            &&& !valid_utf8(chunk) ==> end == (ReadEnd::Invalid {
                m: before,
                start: chunks[k].0,
                end: chunks[k].1,
            })
            &&& valid_utf8(chunk) && S::joined(before, rows) is Err ==> end == (ReadEnd::Apart {
                m: S::joined(before, rows)->Err_0.0,
                message: S::joined(before, rows)->Err_0.1,
            })
        }),
    decreases chunks.len(),
{
    let front = chunks.drop_last();
    if k == chunks.len() - 1 {
        assert(front =~= chunks.take(k));
    } else {
        assert(front.take(k) =~= chunks.take(k));
        first_refused_chunk_ends_the_reading::<S>(bytes, front, k, row_tag, m, before);
    }
}

/// A file is mapped into memory if and only if the caller asks for it, or its size is known to be
/// more than fifty mebibytes and it does not start as a compressed file does.
pub proof fn large_plain_files_are_mapped(size: u64, head: Seq<u8>)
    ensures
        maps_file(true, None, head),
        maps_file(true, Some(size), head),
        !maps_file(false, None, head),
        maps_file(false, Some(size), head) <==> size > 50 * 1024 * 1024 && !is_compressed(head),
{
}

/// Fields are counted by the `<Field` that opens them.
pub proof fn fields_are_counted_by_their_openings(region: Seq<u8>)
    ensures
        occurrences(region, FIELD_OPEN@, 0) == occurrences(region, encode_utf8("<Field"@), 0),
{
    broadcast use vstd::utf8::is_ascii_chars_encode_utf8;

    reveal_strlit("<Field");
    let open = "<Field"@;
    let bytes = encode_utf8(open);
    assert(vstd::utf8::is_ascii_chars(open));
    assert(bytes[0] == open[0] as u8 && bytes[1] == open[1] as u8 && bytes[2] == open[2] as u8);
    assert(bytes[3] == open[3] as u8 && bytes[4] == open[4] as u8 && bytes[5] == open[5] as u8);
    assert(FIELD_OPEN@ =~= encode_utf8("<Field"@));
}

/// An input that is cut at fewer than two points is read as one chunk. Other points give the chunks
/// between them.
pub proof fn points_give_chunks(points: Seq<int>, len: int)
    ensures
        points.len() == 0 || points.len() == 1 ==> chunks_at(points, len) == seq![(0int, len)],
        points.len() >= 2 ==> chunks_at(points, len) == ascending_gaps(points),
{
}

} // verus!
