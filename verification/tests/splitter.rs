use crxml::input::split_points_to_ranges;
use crxml::splitter::{compute_splits, find_special_regions, next_row_start};

#[test]
fn splitter_test_no_special_regions() {
    let xml = b"<Rows><Row A=\"1\"/><Row B=\"2\"/></Rows>";
    let (ranges, has) = find_special_regions(xml);
    assert!(!has);
    assert!(ranges.is_empty());
}

#[test]
fn splitter_test_comment_region() {
    let xml = b"<Rows><!-- comment with <Row> inside --><Row A=\"1\"/></Rows>";
    let (ranges, has) = find_special_regions(xml);
    assert!(has);
    assert_eq!(ranges.len(), 1);
    let comment_open = xml.windows(4).position(|w| w == b"<!--").unwrap();
    let inner_row =
        xml[comment_open..].windows(4).position(|w| w == b"<Row").unwrap() + comment_open;
    assert!(ranges[0].contains(&inner_row));
}

#[test]
fn splitter_test_cdata_region() {
    let xml = b"<Rows><![CDATA[<Row> inside cdata ]]><Row A=\"1\"/></Rows>";
    let (ranges, has) = find_special_regions(xml);
    assert!(has);
    assert_eq!(ranges.len(), 1);
}

#[test]
fn splitter_test_next_row_start_basic() {
    let xml = b"<Row A=\"1\"/><Row B=\"2\"/>";
    assert_eq!(next_row_start(xml, 0, b"Row", &[]), Some(0));
    assert_eq!(next_row_start(xml, 1, b"Row", &[]), Some(12));
    assert_eq!(next_row_start(xml, 100, b"Row", &[]), None);
}

#[test]
fn splitter_test_next_row_start_prefix_collision() {
    let xml = b"<RowItem X=\"1\"/><Row A=\"1\"/>";
    assert_eq!(next_row_start(xml, 0, b"Row", &[]), Some(16));
}

#[test]
fn splitter_test_next_row_start_skips_comment() {
    let xml = b"<!-- <Row> --><Row A=\"1\"/>";
    let (skip, _) = find_special_regions(xml);
    let start = next_row_start(xml, 0, b"Row", &skip).unwrap();
    assert!(start > xml.len() / 2);
}

#[test]
fn test_compute_splits_single_chunk() {
    let xml = b"<Row A=\"1\"/><Row B=\"2\"/><Row C=\"3\"/>";
    let ranges = compute_splits(xml, b"Row", 1);
    assert_eq!(ranges.len(), 1);
    assert_eq!(ranges[0], 0..xml.len());
}

#[test]
fn test_compute_splits_two_chunks() {
    let xml = b"<Row A=\"1\"/><Row B=\"2\"/><Row C=\"3\"/><Row D=\"4\"/>";
    let ranges = compute_splits(xml, b"Row", 2);
    assert_eq!(ranges.len(), 2);
    assert!(ranges[0].len() > 0);
    assert!(ranges[1].len() > 0);
    assert_eq!(ranges[0].start, 0);
    assert_eq!(ranges[1].end, xml.len());
    assert_eq!(ranges[0].end, ranges[1].start);
}

#[test]
fn test_compute_splits_fallback_small_file() {
    let xml = b"<Row A=\"1\"/><Row B=\"2\"/>";
    let ranges = compute_splits(xml, b"Row", 8);
    assert_eq!(ranges.len(), 1);
    assert_eq!(ranges[0], 0..xml.len());
}

// Beyond the documented cases.

#[test]
fn comments_and_cdata_sections_in_any_order() {
    let xml = b"<![CDATA[a]]><!--b--><![CDATA[c]]>";
    assert_eq!(find_special_regions(xml), (vec![0..13, 13..21, 21..34], true));
    let xml = b"<![CDATA[<Row>]]><!-- c -->";
    assert_eq!(find_special_regions(xml), (vec![0..17, 17..27], true));
}

#[test]
fn too_few_rows_make_one_chunk() {
    let xml = b"<R>aaaaaaaaaaaaaaaaa</R><R/><R/>";
    assert_eq!(xml.len(), 32);
    assert_eq!(compute_splits(xml, b"R", 4), vec![0..32]);
    assert_eq!(compute_splits(xml, b"R", 2), vec![0..24, 24..32]);
}

#[test]
fn chunks_cover_the_input_once() {
    let mut xml = b"<X>".to_vec();
    for i in 0..12 {
        xml.extend_from_slice(format!("<R A=\"{}\">", "x".repeat(i * i % 37)).as_bytes());
        xml.extend_from_slice(b"</R><R/>");
    }
    for n in 0..40 {
        let ranges = compute_splits(&xml, b"R", n);
        assert!(ranges.len() == 1 || ranges.len() == n);
        assert_eq!(ranges[0].start, 0);
        assert_eq!(ranges[ranges.len() - 1].end, xml.len());
        for pair in ranges.windows(2) {
            assert_eq!(pair[0].end, pair[1].start);
        }
        for range in &ranges {
            assert!(range.start < range.end);
        }
    }
}

#[test]
fn open_comment_reaches_to_the_end() {
    let (ranges, has) = find_special_regions(b"<a><!-- b");
    assert!(has);
    assert_eq!(ranges, vec![3..9]);
}

#[test]
fn chunks_start_at_rows_and_tile_the_input() {
    let mut xml = b"<R>".to_vec();
    for i in 0..40 {
        xml.extend_from_slice(format!("<Row A=\"{}\"/>", i).as_bytes());
    }
    xml.extend_from_slice(b"</R>");
    for n in 2..8 {
        let ranges = compute_splits(&xml, b"Row", n);
        assert_eq!(ranges.len(), n);
        assert_eq!(ranges[0].start, 0);
        assert_eq!(ranges[n - 1].end, xml.len());
        for pair in ranges.windows(2) {
            assert_eq!(pair[0].end, pair[1].start);
            assert!(xml[pair[1].start..].starts_with(b"<Row "));
        }
    }
}

#[test]
fn empty_input_is_one_chunk() {
    assert_eq!(compute_splits(b"", b"Row", 4), vec![0..0]);
}

#[test]
fn nominal_boundaries_that_share_a_row_move_on() {
    // The boundaries at 4 and 8 both lead to the row at 12: the second one takes the row after it.
    let xml = b"<R> a b c d <Row/><Row/>";
    assert_eq!(xml.len(), 24);
    assert_eq!(compute_splits(xml, b"Row", 2), vec![0..12, 12..24]);
    assert_eq!(compute_splits(b"<R>--<Row/><Row/>", b"Row", 3), vec![0..5, 5..11, 11..17]);
}

#[test]
fn ranges_between_split_points() {
    assert_eq!(split_points_to_ranges(&[], 9), vec![0..9]);
    assert_eq!(split_points_to_ranges(&[4], 9), vec![0..9]);
    assert_eq!(split_points_to_ranges(&[0, 4, 4, 9], 9), vec![0..4, 4..9]);
    assert_eq!(split_points_to_ranges(&[5, 2, 7], 9), vec![2..7]);
}
