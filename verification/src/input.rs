//! Decisions about an input: how to open it, how to cut it, how much room to make.

use std::ops::Range;

use vstd::prelude::*;

use crate::bytes::{occurs_at, starts_with_at};
use crate::markup::spans;
use crate::splitter::{as_points, ascending_gaps, gap_ranges};

verus! {

/// The most bytes of a file that is read into memory rather than mapped.
pub const MAP_THRESHOLD: u64 = 52_428_800;

/// How a gzip file starts.
pub const GZIP_MAGIC: [u8; 2] = [0x1f, 0x8b];

/// How a zstd file starts.
pub const ZSTD_MAGIC: [u8; 4] = [0x28, 0xb5, 0x2f, 0xfd];

/// How an lz4 file starts.
pub const LZ4_MAGIC: [u8; 4] = [0x04, 0x22, 0x4d, 0x18];

/// The fewest bytes that a row is taken to have.
pub const LEAST_ROW_BYTES: usize = 512;

/// The fewest rows that room is made for.
pub const LEAST_ROWS: usize = 64;

/// A file that starts with `head` is compressed.
pub open spec fn is_compressed(head: Seq<u8>) -> bool {
    occurs_at(head, GZIP_MAGIC@, 0) || occurs_at(head, ZSTD_MAGIC@, 0) || occurs_at(
        head,
        LZ4_MAGIC@,
        0,
    )
}

/// A file is to be mapped into memory.
pub open spec fn maps_file(use_mmap: bool, size: Option<u64>, head: Seq<u8>) -> bool {
    use_mmap || (size matches Some(n) && n > MAP_THRESHOLD && !is_compressed(head))
}

/// Whether to map a file into memory: always where the caller asks for it, else where the file is
/// large and not compressed. `size` is the size of the file, if it is known, and `head` holds its
/// first bytes, or none where they cannot be read.
pub fn auto_mmap(use_mmap: bool, size: Option<u64>, head: &[u8]) -> (map: bool)
    ensures
        map == (use_mmap || (size matches Some(n) && n > MAP_THRESHOLD && !is_compressed(head@))),
        map == maps_file(use_mmap, size, head@),
{
    if use_mmap {
        return true;
    }
    match size {
        None => false,
        Some(n) => n > MAP_THRESHOLD && !starts_with_at(head, &GZIP_MAGIC, 0) && !starts_with_at(
            head,
            &ZSTD_MAGIC,
            0,
        ) && !starts_with_at(head, &LZ4_MAGIC, 0),
    }
}

/// How many rows to make room for in `len` bytes, where a row is taken to have `row_bytes`.
pub open spec fn expected_rows(len: nat, row_bytes: nat) -> nat {
    let rows = len / (if row_bytes < LEAST_ROW_BYTES {
        LEAST_ROW_BYTES as nat
    } else {
        row_bytes
    });
    if rows < LEAST_ROWS {
        LEAST_ROWS as nat
    } else {
        rows
    }
}

/// How many rows to make room for in `len` bytes, where a row is taken to have `row_bytes`.
pub fn row_capacity(len: usize, row_bytes: usize) -> (rows: usize)
    ensures
        rows == expected_rows(len as nat, row_bytes as nat),
{
    let size: usize = if row_bytes < LEAST_ROW_BYTES {
        LEAST_ROW_BYTES
    } else {
        row_bytes
    };
    let rows: usize = len / size;
    if rows < LEAST_ROWS {
        LEAST_ROWS
    } else {
        rows
    }
}

/// The ranges between split points: from each point to the next, where that one is larger. Fewer
/// than two points cut nothing.
pub fn split_points_to_ranges(points: &[usize], len: usize) -> (ranges: Vec<Range<usize>>)
    ensures
        spans(ranges@) == (if points@.len() < 2 {
            seq![(0int, len as int)]
        } else {
            ascending_gaps(as_points(points@))
        }),
{
    if points.len() < 2 {
        let ranges: Vec<Range<usize>> = vec![0..len];
        assert(spans(ranges@) =~= seq![(0int, len as int)]);
        return ranges;
    }
    gap_ranges(points)
}

} // verus!
