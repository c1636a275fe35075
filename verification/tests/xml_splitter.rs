use std::sync::Arc;
use std::time::Instant;

use crxml::markup::{CDATA_CLOSE, CDATA_OPEN, COMMENT_CLOSE, COMMENT_OPEN};
use crxml::names::NameSet;
use crxml::xml::decoder::CrystalXmlDecoder;
use crxml::xml::sink::{ColumnarSink, RowCollector};
use crxml::xml::splitter::{
    closer_for, find_special_regions, in_skip_region, next_row_start, next_row_start_fast,
    split_timing, CrystalXmlSplitter,
};
use rypipe_core::decoder::SkipRegionFinder;
use rypipe_core::engine::LocateOnly;
use rypipe_core::{ColumnarSink as EngineSink, ExecutionPlan, Splitter, Value};

struct SkipRegions;

impl SkipRegionFinder for SkipRegions {
    fn openers(&self) -> &[&'static [u8]] {
        &[&COMMENT_OPEN, &CDATA_OPEN]
    }

    fn closer_for(&self, opener: &[u8]) -> &'static [u8] {
        closer_for(opener)
    }
}

struct RowSplitter(CrystalXmlSplitter);

impl RowSplitter {
    fn with_row_tag(tag: &[u8]) -> Self {
        RowSplitter(CrystalXmlSplitter::with_row_tag(tag))
    }
}

impl Splitter for RowSplitter {
    fn next_record_start(&self, bytes: &[u8], from: usize) -> Option<usize> {
        self.0.next_record_start(bytes, from)
    }

    fn skip_regions(&self) -> Option<&dyn SkipRegionFinder> {
        Some(&SkipRegions)
    }

    fn estimate_bytes_per_row(&self, sample: &[u8]) -> usize {
        self.0.estimate_bytes_per_row(sample)
    }
}

struct Located(LocateOnly);

impl Located {
    fn new() -> Self {
        Located(LocateOnly::new(ExecutionPlan::new()))
    }
}

impl ColumnarSink for Located {
    type Model = Located;

    fn begin_row(&mut self) {
        self.0.begin_row();
    }

    fn resolve_and_put(&mut self, name: &str, value: &str) {
        self.0.resolve_and_put(name, Value::Str(value.into()));
    }

    fn end_row(&mut self) {
        self.0.end_row();
    }

    fn row_rejected(&self) -> bool {
        self.0.row_rejected()
    }

    fn needs_value(&self) -> bool {
        self.0.needs_value()
    }

    fn needs_resolve(&self) -> bool {
        self.0.needs_resolve()
    }

    fn wants(&self, name: &str) -> bool {
        self.0.wants(name)
    }

    fn resolve<'a>(&'a self, name: &'a str) -> Option<&'a str> {
        self.0.resolve(name)
    }
}

#[test]
fn test_no_special_regions() {
    let xml = b"<Rows><Row A=\"1\"/><Row B=\"2\"/></Rows>";
    let (ranges, has) = find_special_regions(xml);
    assert!(!has);
    assert!(ranges.is_empty());
}

#[test]
fn test_comment_region() {
    let xml = b"<Rows><!-- comment with <Row> inside --><Row A=\"1\"/></Rows>";
    let (ranges, has) = find_special_regions(xml);
    assert!(has);
    assert_eq!(ranges.len(), 1);
    let comment_open = xml.windows(4).position(|w| w == b"<!--").unwrap();
    let inner_row =
        xml[comment_open..].windows(4).position(|w| w == b"<Row").unwrap() + comment_open;
    assert!(ranges[0].contains(&inner_row));
}

#[test]
fn test_cdata_region() {
    let xml = b"<Rows><![CDATA[<Row> inside cdata ]]><Row A=\"1\"/></Rows>";
    let (ranges, has) = find_special_regions(xml);
    assert!(has);
    assert_eq!(ranges.len(), 1);
}

#[test]
fn test_next_row_start_basic() {
    let xml = b"<Row A=\"1\"/><Row B=\"2\"/>";
    assert_eq!(next_row_start(xml, 0, b"Row", &[]), Some(0));
    assert_eq!(next_row_start(xml, 1, b"Row", &[]), Some(12));
    assert_eq!(next_row_start(xml, 100, b"Row", &[]), None);
}

#[test]
fn test_next_row_start_prefix_collision() {
    let xml = b"<RowItem X=\"1\"/><Row A=\"1\"/>";
    assert_eq!(next_row_start(xml, 0, b"Row", &[]), Some(16));
}

#[test]
fn test_next_row_start_skips_comment() {
    let xml = b"<!-- <Row> --><Row A=\"1\"/>";
    let (skip, _) = find_special_regions(xml);
    let start = next_row_start(xml, 0, b"Row", &skip).unwrap();
    assert!(start > xml.len() / 2);
}

#[test]
fn test_splitter_find_split_points_single_chunk() {
    let xml = b"<Row A=\"1\"/><Row B=\"2\"/><Row C=\"3\"/>";
    let splitter = RowSplitter::with_row_tag(b"Row");
    let points = splitter.find_split_points(xml, 1);
    assert_eq!(points.len(), 2);
    assert_eq!(points[0], 0);
    assert_eq!(points[1], xml.len());
}

#[test]
fn test_splitter_find_split_points_two_chunks() {
    let xml = b"<Row A=\"1\"/><Row B=\"2\"/><Row C=\"3\"/><Row D=\"4\"/>";
    let splitter = RowSplitter::with_row_tag(b"Row");
    let points = splitter.find_split_points(xml, 2);
    assert!(points.len() >= 2);
    assert_eq!(points[0], 0);
    assert_eq!(*points.last().unwrap(), xml.len());
    assert!(points.windows(2).all(|w| w[0] < w[1]));
}

#[test]
fn test_splitter_find_split_points_fallback_small_file() {
    let xml = b"<Row A=\"1\"/><Row B=\"2\"/>";
    let splitter = RowSplitter::with_row_tag(b"Row");
    let points = splitter.find_split_points(xml, 8);
    assert_eq!(points.len(), 2);
    assert_eq!(points[0], 0);
    assert_eq!(points[1], xml.len());
}

#[test]
fn test_splitter_find_split_points() {
    let xml = b"<Row A=\"1\"/><Row B=\"2\"/><Row C=\"3\"/>";
    let splitter = RowSplitter::with_row_tag(b"Row");
    let points = splitter.find_split_points(xml, 2);
    assert_eq!(points.first(), Some(&0));
    assert_eq!(points.last(), Some(&xml.len()));
    assert!(points.windows(2).all(|w| w[0] < w[1]));
}

#[test]
fn test_estimate_bytes_per_row() {
    let xml = b"<Row A=\"1\"/><Row B=\"2\"/>";
    let splitter = CrystalXmlSplitter::with_row_tag(b"Row");
    let est = splitter.estimate_bytes_per_row(xml);
    assert!(est > 0);
}

#[test]
fn test_random_bytes_no_panic() {
    let seeds: &[&[u8]] = &[
        b"",
        b"<",
        b"<Row",
        b"<Row>",
        b"<Ro",
        b"<<<<",
        b"<Row A=\"1\"/><Row B=\"2\"/>",
        b"<!-- <Row> -->",
        b"<![CDATA[<Row>]]>",
        b"\0\0\0\0",
        b"\xff\xff\xff\xff",
        b"<Row>\x00\x00<Row>",
        b"<Row>\n<Row>\n<Row>",
        b"<Row/>,<Row/>",
        b"<RowItem/><Row/>",
        b"<Row/><RowItem/>",
        b"  <Row/>",
        b"<Row/>  ",
        b"<Row><!--<Row>--><Row/>",
        b"<Row><![CDATA[<Row>]]><Row/>",
        b"<!--",
        b"<!-- <Row> ",
        b"<![CDATA[",
        b"<![CDATA[ <Row> ",
        b"<Row/><Row/><Row/><Row/>",
        b"<Row/><Row/><Row/><Row/><Row/>",
        b"<Details Level=\"3\">text</Details>",
        b"<Details><Section SectionNumber=\"0\"><Field Name=\"X\"><Value>1</Value></Field></Section></Details>",
    ];

    let tags: &[&[u8]] = &[b"Row", b"Details", b"Item", b"A"];
    for seed in seeds {
        for tag in tags {
            let (skip, _) = find_special_regions(seed);
            let _ = next_row_start(seed, 0, tag, &skip);
            let splitter = RowSplitter::with_row_tag(tag);
            for n in [1, 2, 3, 4, 8, 17] {
                let points = splitter.find_split_points(seed, n);
                if seed.is_empty() {
                    continue;
                }
                assert!(points.first() == Some(&0));
                assert!(points.last() == Some(&seed.len()));
                assert!(points.windows(2).all(|w| w[0] < w[1]));
            }
        }
    }
}

#[test]
fn test_split_points_invariants() {
    let xml = b"<Row A=\"1\"/><Row B=\"2\"/><Row C=\"3\"/><Row D=\"4\"/><Row E=\"5\"/>";
    let splitter = RowSplitter::with_row_tag(b"Row");
    for n in [2, 3, 4, 5] {
        let points = splitter.find_split_points(xml, n);
        assert_eq!(points[0], 0, "must start at 0");
        assert_eq!(*points.last().unwrap(), xml.len(), "must end at file length");
        assert!(points.windows(2).all(|w| w[0] < w[1]), "must be strictly increasing");
    }
}

#[test]
fn test_single_chunk_equals_multi_chunk() {
    let xml = b"<Rows><Row A=\"1\"/><Row B=\"2\"/><Row C=\"3\"/><Row D=\"4\"/><Row E=\"5\"/></Rows>";
    let splitter = RowSplitter::with_row_tag(b"Row");
    let decoder = CrystalXmlDecoder::with_row_tag(b"Row");

    let mut single = Located::new();
    decoder.parse_chunk(xml, &mut single).unwrap();
    let single_rows = single.0.row_count;

    for n in [2, 3, 5] {
        let points = splitter.find_split_points(xml, n);
        let mut multi_rows = 0;
        for w in points.windows(2) {
            let chunk = &xml[w[0]..w[1]];
            let mut loc = Located::new();
            decoder.parse_chunk(chunk, &mut loc).unwrap();
            multi_rows += loc.0.row_count;
        }
        assert_eq!(single_rows, multi_rows, "row count mismatch at n={}", n);
    }
}

#[test]
fn test_split_time_overhead() {
    let mut xml = Vec::with_capacity(1_000_000);
    xml.extend_from_slice(b"<Rows>");
    let mut row_count = 0;
    while xml.len() < 1_000_000 {
        let i = row_count;
        xml.extend_from_slice(
            format!("<Row A=\"{i}\" B=\"value{i}\" C=\"{i}.{i}\"/>").as_bytes(),
        );
        row_count += 1;
    }
    xml.extend_from_slice(b"</Rows>");

    let splitter = RowSplitter::with_row_tag(b"Row");
    let decoder = CrystalXmlDecoder::with_row_tag(b"Row");

    let t0 = Instant::now();
    let mut loc = Located::new();
    decoder.parse_chunk(&xml, &mut loc).unwrap();
    let parse_time = t0.elapsed();

    let t0 = Instant::now();
    let _points = splitter.find_split_points(&xml, 8);
    let split_time = t0.elapsed();

    let overhead = split_time.as_secs_f64() / parse_time.as_secs_f64();
    assert!(overhead < 0.10, "split overhead {:.1}% exceeds 10% threshold", overhead * 100.0);
}

// Beyond the documented cases.

#[test]
fn regions_in_order_of_appearance() {
    let xml = b"<![CDATA[a]]><!--b--><!DOCTYPE c><![CDATA[d";
    let (ranges, has) = find_special_regions(xml);
    assert!(has);
    assert_eq!(ranges, vec![0..13, 13..21, 33..xml.len()]);
}

#[test]
fn record_starts_past_the_whole_row() {
    let splitter = CrystalXmlSplitter::with_row_tag(b"Row");
    let xml = b"<R><Row A=\"1\"/><Row>x</Row><Row";
    assert_eq!(splitter.next_record_start(xml, 0), Some(15));
    assert_eq!(splitter.next_record_start(xml, 4), Some(27));
    assert_eq!(splitter.next_record_start(xml, 16), None);
    assert_eq!(splitter.next_record_start(b"<Row A", 0), Some(6));
    let xml = b"<Row A=\"/>\"><!--</Row>--></Row ><Row/>";
    assert_eq!(splitter.next_record_start(xml, 0), Some(32));
    assert_eq!(&xml[32..], b"<Row/>");
    let splitter = CrystalXmlSplitter::with_row_tag(b"R");
    assert_eq!(splitter.next_record_start(b"<R></R><R></R>", 0), Some(7));
    assert_eq!(splitter.next_record_start(b"<R></R><R></R>", 7), Some(14));
}

#[test]
fn the_number_of_chunks_does_not_show() {
    let mut xml = b"<Rows>".to_vec();
    for i in 0..50 {
        let row = match i % 4 {
            0 => format!("<Row A=\"{i}\"/>"),
            1 => format!("<Row><Field Name=\"A\"><Value>{i}</Value></Field></Row>"),
            2 => format!("<Row A=\"{i}\"><!-- </Row> --><Field Name=\"B\"/></Row>"),
            _ => format!("<!-- <Row/> --><Row A=\"{i}\"><Text Name=\"T\"></Text></Row >"),
        };
        xml.extend_from_slice(row.as_bytes());
    }
    xml.extend_from_slice(b"</Rows>");
    let splitter = CrystalXmlSplitter::with_row_tag(b"Row");
    let decoder = CrystalXmlDecoder::with_row_tag(b"Row");
    let mut whole = RowCollector::new(NameSet::new());
    decoder.read(&xml, &mut whole).unwrap();
    assert_eq!(whole.rows().len(), 50);
    for n in 1..30 {
        let mut points: Vec<usize> = (1..n)
            .filter_map(|i| splitter.next_record_start(&xml, xml.len() * i / n))
            .collect();
        points.insert(0, 0);
        points.push(xml.len());
        points.dedup();
        let mut split = RowCollector::new(NameSet::new());
        assert_eq!(decoder.read_split(&xml, &points, 512, &mut split), Ok(()));
        assert_eq!(split.rows(), whole.rows(), "with {n} chunks");
    }
}

#[test]
fn record_starts_outside_comments() {
    let xml = b"<!-- <Row/> --><Row/>";
    assert_eq!(next_row_start_fast(xml, 0, b"Row"), Some(15));
    assert!(in_skip_region(xml, 5));
    assert!(!in_skip_region(xml, 15));
}

#[test]
fn skip_regions_agree_with_the_engine() {
    let xml: &[u8] = b"a<!--b-->c<![CDATA[d]]>e<!--f<![CDATA[g-->h]]>i";
    for at in 0..xml.len() {
        assert_eq!(
            in_skip_region(xml, at),
            rypipe_core::decoder::in_skip_region(xml, at, &SkipRegions),
            "at {}",
            at
        );
    }
}

#[test]
fn estimates() {
    let splitter = CrystalXmlSplitter::with_row_tag(b"Row");
    assert_eq!(splitter.estimate_bytes_per_row(b"<Row A=\"1\"/><Row B=\"2\"/>"), 12);
    assert_eq!(splitter.estimate_bytes_per_row(b"no rows here"), 512);
    assert_eq!(splitter.estimate_bytes_per_row(b""), 512);
}

#[test]
fn closers_of_constructs() {
    assert_eq!(closer_for(b"<!--"), COMMENT_CLOSE);
    assert_eq!(closer_for(b"<![CDATA["), CDATA_CLOSE);
}

#[test]
fn nothing_is_timed() {
    assert_eq!(split_timing(), (0, 0));
}

#[test]
fn located_rows_count_without_values() {
    let plan = Arc::new(ExecutionPlan::new());
    assert!(plan.drop_fields.is_empty());
    let mut loc = Located::new();
    CrystalXmlDecoder::with_row_tag(b"Row")
        .parse_chunk(b"<Row><Field Name=\"A\"><Value>1</Value></Field></Row><Row/>", &mut loc)
        .unwrap();
    assert_eq!(loc.0.row_count, 2);
}
