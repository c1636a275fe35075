use std::collections::HashMap;
use std::io::Cursor;

use crxml::column::ColumnBuilder;
use crxml::columnar::{unified_columns, ColumnarEngine};
use crxml::events::{EventList, Tag, XmlEvent};
use crxml::parse::ParseResult;
use crxml::plan::{BuildPlan, CompareOp, FieldType, FilterPredicate};
use crxml::splitter::compute_splits;
use quick_xml::events::{BytesStart, Event};
use quick_xml::Reader;
use rayon::iter::{IntoParallelRefIterator, ParallelIterator};

fn column<'a>(engine: &'a ColumnarEngine, name: &str) -> &'a ColumnBuilder {
    engine.column(name).unwrap()
}

fn texts(engine: &ColumnarEngine, name: &str) -> Vec<Option<String>> {
    column(engine, name).as_str_vec()
}

fn some(text: &str) -> Option<String> {
    Some(text.to_string())
}

#[test]
fn test_parse_simple_details() {
    let xml = b"<CrystalReport><Details Level=\"3\"><A>1</A></Details></CrystalReport>";
    let mut engine = ColumnarEngine::new();
    engine.parse_bytes(xml, b"Details").unwrap();
    assert_eq!(engine.num_rows(), 1);
}

#[test]
fn test_parse_two_details() {
    let xml = b"<CrystalReport><Details Level=\"3\"><A>1</A></Details><Details Level=\"3\"><A>2</A></Details></CrystalReport>";
    let mut engine = ColumnarEngine::new();
    engine.parse_bytes(xml, b"Details").unwrap();
    assert_eq!(engine.num_rows(), 2);
}

#[test]
fn test_extend_no_duplicates() {
    let xml = b"<CrystalReport><Details Level=\"3\"><A>1</A></Details></CrystalReport>";
    let mut e1 = ColumnarEngine::new();
    e1.parse_bytes(xml, b"Details").unwrap();

    let mut merged = ColumnarEngine::new();
    merged.extend(e1).unwrap();
    assert_eq!(merged.num_rows(), 1);
    for name in merged.column_names() {
        assert_eq!(column(&merged, name).len(), merged.num_rows());
    }
}

fn parse_in_chunks(xml: &[u8], row_tag: &[u8], chunks: usize) -> ColumnarEngine {
    let mut merged = ColumnarEngine::new();
    for chunk in &compute_splits(xml, row_tag, chunks) {
        let mut engine = ColumnarEngine::new();
        engine.parse_bytes(&xml[chunk.clone()], row_tag).unwrap();
        merged.extend(engine).unwrap();
    }
    merged
}

#[test]
fn test_multi_chunk_same_as_single() {
    let xml = b"<CrystalReport><Details Level=\"3\"><A>1</A></Details><Details Level=\"3\"><A>2</A></Details></CrystalReport>";
    let mut single = ColumnarEngine::new();
    single.parse_bytes(xml, b"Details").unwrap();
    assert_eq!(single.num_rows(), 2);
    let merged = parse_in_chunks(xml, b"Details", 2);
    assert_eq!(merged.num_rows(), single.num_rows());
}

const GROUPED: &[u8] = b"<Root><Group><Details Level=\"3\"><A>1</A></Details><Details Level=\"3\"><A>2</A></Details></Group><Details Level=\"3\"><A>3</A></Details></Root>";

#[test]
fn test_multi_chunk_with_parent_elements() {
    let mut single = ColumnarEngine::new();
    single.parse_bytes(GROUPED, b"Details").unwrap();
    assert_eq!(single.num_rows(), 3);
    assert_eq!(compute_splits(GROUPED, b"Details", 2).len(), 2);
    let merged = parse_in_chunks(GROUPED, b"Details", 2);
    assert_eq!(merged.num_rows(), single.num_rows());
}

#[test]
fn test_parallel_same_as_single() {
    let mut single = ColumnarEngine::new();
    single.parse_bytes(GROUPED, b"Details").unwrap();
    assert_eq!(single.num_rows(), 3);

    let chunks = compute_splits(GROUPED, b"Details", 2);
    let results: Vec<Result<ColumnarEngine, String>> = chunks
        .par_iter()
        .map(|range| {
            let mut engine = ColumnarEngine::new();
            engine.parse_bytes(&GROUPED[range.clone()], b"Details")?;
            Ok(engine)
        })
        .collect();
    let mut merged = ColumnarEngine::new();
    for result in results {
        merged.extend(result.unwrap()).unwrap();
    }
    assert_eq!(merged.num_rows(), single.num_rows());
}

#[test]
fn test_multi_chunk_single_chunk_fallback() {
    let xml = b"<CrystalReport><Details Level=\"3\"><A>1</A></Details></CrystalReport>";
    let merged = parse_in_chunks(xml, b"Details", 1);
    assert_eq!(merged.num_rows(), 1);
}

#[test]
fn test_last_write_wins_duplicate_field() {
    let xml = b"<R><Details Level=\"1\"><Section><Field Name=\"Score\"><Value>10</Value></Field><Field Name=\"Score\"><Value>20</Value></Field></Section></Details></R>";
    let mut engine = ColumnarEngine::new();
    engine.parse_bytes(xml, b"Details").unwrap();
    assert_eq!(engine.num_rows(), 1);
    assert_eq!(column(&engine, "Score").len(), 1);
    assert_eq!(texts(&engine, "Score")[0], some("20"));
}

#[test]
fn test_build_plan_rename() {
    let xml = b"<R><Details Level=\"3\"><Section><Field Name=\"Score\"><Value>100</Value></Field></Section></Details></R>";
    let mut plan = BuildPlan::new();
    plan.field_map.insert("Score".to_string(), "Renamed".to_string());
    let mut engine = ColumnarEngine::with_plan(64, plan);
    engine.parse_bytes(xml, b"Details").unwrap();
    assert_eq!(engine.num_rows(), 1);
    assert_eq!(engine.num_columns(), 3);
    assert!(engine.column("Renamed").is_some());
    assert!(engine.column("Score").is_none());
    assert_eq!(texts(&engine, "Renamed")[0], some("100"));
}

#[test]
fn test_build_plan_drop() {
    let xml = b"<R><Details Level=\"3\"><Section><Field Name=\"Score\"><Value>100</Value></Field></Section></Details></R>";
    let mut plan = BuildPlan::new();
    plan.drop_fields.insert("Score".to_string());
    let mut engine = ColumnarEngine::with_plan(64, plan);
    engine.parse_bytes(xml, b"Details").unwrap();
    assert_eq!(engine.num_rows(), 1);
    assert_eq!(engine.num_columns(), 2);
    assert!(engine.column("Score").is_none());
}

fn filtered(xml: &[u8], filter: FilterPredicate) -> ColumnarEngine {
    let mut plan = BuildPlan::new();
    plan.filter = Some(filter);
    let mut engine = ColumnarEngine::with_plan(64, plan);
    engine.parse_bytes(xml, b"Details").unwrap();
    engine
}

#[test]
fn test_build_plan_filter_ne() {
    let xml = b"<R><Details Level=\"3\"><Section><Field Name=\"Score\"><Value>10</Value></Field></Section></Details>\
                   <Details Level=\"2\"><Section><Field Name=\"Score\"><Value>42</Value></Field></Section></Details>\
                   <Details Level=\"1\"><Section><Field Name=\"Score\"><Value>30</Value></Field></Section></Details></R>";
    let engine = filtered(
        xml,
        FilterPredicate::NotEqual { field: "Score".to_string(), value: "42".to_string() },
    );
    assert_eq!(engine.num_rows(), 2, "filter should keep rows 1 and 3");
    assert_eq!(texts(&engine, "Score"), &[some("10"), some("30")]);
}

#[test]
fn test_build_plan_filter_eq() {
    let xml = b"<R><Details Level=\"3\"><Section><Field Name=\"Score\"><Value>10</Value></Field></Section></Details>\
                   <Details Level=\"2\"><Section><Field Name=\"Score\"><Value>20</Value></Field></Section></Details>\
                   <Details Level=\"1\"><Section><Field Name=\"Score\"><Value>10</Value></Field></Section></Details></R>";
    let engine = filtered(
        xml,
        FilterPredicate::Equal { field: "Score".to_string(), value: "10".to_string() },
    );
    assert_eq!(engine.num_rows(), 2, "filter should keep only rows with Score=10");
    assert_eq!(texts(&engine, "Score"), &[some("10"), some("10")]);
}

#[test]
fn test_build_plan_filter_missing_field() {
    let xml = b"<R><Details Level=\"3\"><Section><Field Name=\"Score\"><Value>10</Value></Field></Section></Details>\
                   <Details Level=\"2\"><Section><Field Name=\"Other\"><Value>99</Value></Field></Section></Details></R>";
    let engine = filtered(
        xml,
        FilterPredicate::NotEqual { field: "Score".to_string(), value: "10".to_string() },
    );
    assert_eq!(engine.num_rows(), 1);
    assert_eq!(texts(&engine, "Level"), &[some("2")]);
}

fn typed(xml: &[u8], name: &str, kind: FieldType) -> ColumnarEngine {
    let mut plan = BuildPlan::new();
    plan.field_types.insert(name.to_string(), kind);
    let mut engine = ColumnarEngine::with_plan(64, plan);
    engine.parse_bytes(xml, b"Row").unwrap();
    engine
}

#[test]
fn test_typed_int64_column() {
    let xml = b"<R><Row><Field Name=\"Score\"><Value>42</Value></Field></Row></R>";
    let engine = typed(xml, "Score", FieldType::Int64);
    assert_eq!(engine.num_rows(), 1);
    if let ColumnBuilder::Int64(v) = column(&engine, "Score") {
        assert_eq!(v[0], Some(42));
    } else {
        panic!("expected Int64 builder");
    }
}

#[test]
fn test_typed_float64_column() {
    let xml = b"<R><Row><Field Name=\"Amount\"><Value>99.5</Value></Field></Row></R>";
    let engine = typed(xml, "Amount", FieldType::Float64);
    if let ColumnBuilder::Float64(v) = column(&engine, "Amount") {
        let amount = lexical::parse::<f64, _>(v[0].as_ref().unwrap().as_bytes()).unwrap();
        assert!((amount - 99.5).abs() < 1e-9);
    } else {
        panic!("expected Float64 builder");
    }
}

#[test]
fn test_typed_parse_failure_nulls() {
    let xml = b"<R><Row><Field Name=\"Score\"><Value>42</Value></Field></Row>\
                    <Row><Field Name=\"Score\"><Value>N/A</Value></Field></Row>\
                    <Row><Field Name=\"Score\"><Value>100</Value></Field></Row></R>";
    let engine = typed(xml, "Score", FieldType::Int64);
    assert_eq!(engine.num_rows(), 3);
    if let ColumnBuilder::Int64(v) = column(&engine, "Score") {
        assert_eq!(v[0], Some(42));
        assert_eq!(v[1], None);
        assert_eq!(v[2], Some(100));
    } else {
        panic!("expected Int64 builder");
    }
}

#[test]
fn test_dictionary_column() {
    let xml = b"<R><Row><Field Name=\"Product\"><Value>Widget</Value></Field></Row>\
                    <Row><Field Name=\"Product\"><Value>Gadget</Value></Field></Row>\
                    <Row><Field Name=\"Product\"><Value>Widget</Value></Field></Row></R>";
    let mut plan = BuildPlan::new();
    plan.dictionary_columns.insert("Product".to_string());
    let mut engine = ColumnarEngine::with_plan(64, plan);
    engine.parse_bytes(xml, b"Row").unwrap();
    assert_eq!(engine.num_rows(), 3);
    if let ColumnBuilder::Dictionary { codes, dict, .. } = column(&engine, "Product") {
        assert_eq!(dict.len(), 2);
        assert_eq!(codes[0], Some(0));
        assert_eq!(codes[1], Some(1));
        assert_eq!(codes[2], Some(0));
    } else {
        panic!("expected Dictionary builder");
    }
}

// An independent oracle: rows straight from the XML events.

type Row = HashMap<String, String>;

fn read_child_text(reader: &mut Reader<Cursor<&[u8]>>, end: &[u8], wanted: &[&[u8]]) -> String {
    let mut text = String::new();
    let mut ibuf = Vec::new();
    loop {
        match reader.read_event_into(&mut ibuf) {
            Ok(Event::Start(ref ic)) => {
                if wanted.contains(&ic.name().as_ref()) {
                    if let Ok(Event::Text(t)) = reader.read_event_into(&mut ibuf) {
                        if let Ok(v) = t.unescape() {
                            text = v.into_owned();
                        }
                    }
                }
            }
            Ok(Event::Empty(_)) => {}
            Ok(Event::End(ref e)) if e.name().as_ref() == end => break,
            Ok(Event::Eof) | Err(_) => break,
            _ => {}
        }
        ibuf.clear();
    }
    text
}

fn attr(e: &BytesStart, keys: &[&[u8]]) -> Option<String> {
    e.attributes()
        .flatten()
        .find(|a| keys.contains(&a.key.as_ref()))
        .and_then(|a| a.unescape_value().ok())
        .map(|v| v.into_owned())
}

fn put_attributes(row: &mut Row, e: &BytesStart) {
    for a in e.attributes().flatten() {
        let k = String::from_utf8_lossy(a.key.as_ref()).into_owned();
        row.insert(k, a.unescape_value().unwrap_or_default().into_owned());
    }
}

fn put_child(row: &mut Row, reader: &mut Reader<Cursor<&[u8]>>, c: &BytesStart, paired: bool) {
    let tag = c.name().as_ref().to_vec();
    if tag == b"Field" {
        let key = attr(c, &[b"FieldName", b"Name"]).unwrap_or_else(|| "Field".into());
        let val = if paired {
            read_child_text(reader, b"Field", &[b"FormattedValue", b"Value"])
        } else {
            String::new()
        };
        row.insert(key, val);
    } else if tag == b"Text" {
        let key = attr(c, &[b"Name"]).unwrap_or_else(|| "Text".into());
        let val = if paired {
            read_child_text(reader, b"Text", &[b"TextValue"])
        } else {
            String::new()
        };
        row.insert(key, val);
    } else if tag == b"Section" {
        let sn = attr(c, &[b"SectionNumber"]).unwrap_or_default();
        row.insert("Section".into(), sn);
    } else {
        row.insert(String::from_utf8_lossy(&tag).into_owned(), String::new());
    }
}

fn row_values_reference(bytes: &[u8], row_tag: &[u8]) -> Vec<Row> {
    let mut reader = Reader::from_reader(Cursor::new(bytes));
    reader.config_mut().check_end_names = false;
    let mut buf = Vec::new();
    let mut rows = Vec::new();
    loop {
        let event = match reader.read_event_into(&mut buf) {
            Ok(e) => e,
            Err(_) => break,
        };
        match event {
            Event::Empty(ref e) if e.name().as_ref() == row_tag => {
                let mut row = Row::new();
                put_attributes(&mut row, e);
                rows.push(row);
            }
            Event::Start(ref e) if e.name().as_ref() == row_tag => {
                let mut row = Row::new();
                put_attributes(&mut row, e);
                let mut cbuf = Vec::new();
                loop {
                    match reader.read_event_into(&mut cbuf) {
                        Ok(Event::Start(ref c)) => put_child(&mut row, &mut reader, c, true),
                        Ok(Event::Empty(ref c)) => put_child(&mut row, &mut reader, c, false),
                        Ok(Event::End(ref e)) if e.name().as_ref() == row_tag => break,
                        Ok(Event::Eof) | Err(_) => break,
                        _ => {}
                    }
                    cbuf = Vec::new();
                }
                rows.push(row);
            }
            Event::Eof => break,
            _ => {}
        }
        buf.clear();
    }
    rows
}

fn row_values(engine: &ColumnarEngine) -> Vec<Row> {
    (0..engine.num_rows())
        .map(|i| {
            let mut m = Row::new();
            for name in engine.column_names() {
                if let Some(s) = column(engine, name).get_filter_value(i, None) {
                    m.insert(name.clone(), s);
                }
            }
            m
        })
        .collect()
}

#[test]
fn test_ragged_late_chunk_column_debut() {
    let full = b"<R>\
        <Details A=\"1\"><Field Name=\"A\"><Value>1</Value></Field><Field Name=\"B\"><Value>2</Value></Field></Details>\
        <Details A=\"3\"><Field Name=\"A\"><Value>3</Value></Field></Details>\
        <Details><Field Name=\"B\"><Value>4</Value></Field><Field Name=\"C\"><Value>5</Value></Field></Details>\
        </R>";
    let chunk1 = b"<R>\
        <Details A=\"1\"><Field Name=\"A\"><Value>1</Value></Field><Field Name=\"B\"><Value>2</Value></Field></Details>\
        <Details A=\"3\"><Field Name=\"A\"><Value>3</Value></Field></Details>";
    let chunk2 = b"<Details><Field Name=\"B\"><Value>4</Value></Field><Field Name=\"C\"><Value>5</Value></Field></Details></R>";
    let tag = b"Details";

    let mut single = ColumnarEngine::new();
    single.parse_bytes(full, tag).unwrap();
    let mut e1 = ColumnarEngine::new();
    e1.parse_bytes(chunk1, tag).unwrap();
    let mut e2 = ColumnarEngine::new();
    e2.parse_bytes(chunk2, tag).unwrap();
    let mut merged = ColumnarEngine::new();
    merged.extend(e1).unwrap();
    merged.extend(e2).unwrap();

    assert_eq!(texts(&merged, "A"), &[some("1"), some("3"), None]);
    assert_eq!(texts(&merged, "B"), &[some("2"), None, some("4")]);
    assert_eq!(texts(&merged, "C"), &[None, None, some("5")]);

    let oracle = row_values_reference(full, tag);
    assert_eq!(row_values(&single), oracle, "single-chunk must match oracle");
    assert_eq!(row_values(&merged), oracle, "merged multi-chunk must match oracle");
}

#[test]
fn test_midfield_eof_truncation_discards_partial_row() {
    let chunk1 = b"<R><Details><Field Name=\"A\"><Value>1</Value></Field></Details>";
    let chunk2 = b"<Details><Field Name=\"C\"><Value>5</Value>";
    let tag = b"Details";

    let mut e2 = ColumnarEngine::new();
    e2.parse_bytes(chunk2, tag).unwrap();
    e2.normalize();
    assert_eq!(e2.num_rows(), 0, "partial row must not be counted");
    for name in e2.column_names() {
        assert_eq!(column(&e2, name).len(), e2.num_rows());
    }

    let mut e1 = ColumnarEngine::new();
    e1.parse_bytes(chunk1, tag).unwrap();
    let mut merged = ColumnarEngine::new();
    merged.extend(e1).unwrap();
    merged.extend(e2).unwrap();
    merged.normalize();
    assert_eq!(merged.num_rows(), 1);
    for name in merged.column_names() {
        assert_eq!(column(&merged, name).len(), merged.num_rows());
    }
}

#[test]
fn test_auto_dict_upgrade_only_post_merge() {
    let xml = b"<R><Row><Field Name=\"P\"><Value>x</Value></Field></Row>\
                    <Row><Field Name=\"P\"><Value>y</Value></Field></Row></R>";
    let tag = b"Row";
    let mut plan = BuildPlan::new();
    plan.auto_dict = true;

    let mut a = ColumnarEngine::with_plan(64, plan.clone());
    a.parse_bytes(xml, tag).unwrap();
    let mut b = ColumnarEngine::with_plan(64, plan.clone());
    b.parse_bytes(xml, tag).unwrap();

    let mut merged = ColumnarEngine::with_plan(64, plan);
    merged.extend(a).unwrap();
    merged.extend(b).unwrap();
    merged.auto_dict_upgrade();
    assert_eq!(merged.num_rows(), 4);
}

#[test]
fn test_extend_variant_mismatch_errors_not_panics() {
    let xml = b"<R><Row><Field Name=\"P\"><Value>x</Value></Field></Row></R>";
    let tag = b"Row";
    let mut e1 = ColumnarEngine::new();
    e1.parse_bytes(xml, tag).unwrap();
    let mut plan = BuildPlan::new();
    plan.dictionary_columns.insert("P".to_string());
    let mut e2 = ColumnarEngine::with_plan(64, plan);
    e2.parse_bytes(xml, tag).unwrap();
    let result = e1.extend(e2);
    assert!(result.is_err(), "String/Dictionary mismatch must return Err");
    assert_eq!(result.unwrap_err(), "extend_owned: column type mismatch across chunks");
}

#[test]
fn test_malformed_xml_errors_loudly() {
    let xml = b"<R><Row><Field Name=\"Score><Value>10</Value></Field></Row></R>";
    let mut engine = ColumnarEngine::new();
    assert!(engine.parse_bytes(xml, b"Row").is_err());
}

// Beyond the documented cases.

#[test]
fn invalid_utf8_is_refused() {
    let mut engine = ColumnarEngine::new();
    assert_eq!(engine.parse_bytes(b"<Row A=\"\xff\"/>", b"Row"), Err("invalid UTF-8 in input".to_string()));
    assert_eq!(
        engine.parse_bytes_quickxml_only(b"\xff", b"Row"),
        Err("invalid UTF-8 in input".to_string())
    );
    assert_eq!(engine.num_rows(), 0);
    assert_eq!(engine.num_columns(), 0);
}

#[test]
fn events_alone_give_the_same_table() {
    let mut a = ColumnarEngine::new();
    a.parse_bytes(GROUPED, b"Details").unwrap();
    let mut b = ColumnarEngine::new();
    b.parse_bytes_quickxml_only(GROUPED, b"Details").unwrap();
    assert_eq!(row_values(&a), row_values(&b));
}

#[test]
fn open_comment_at_the_end_is_passed_over() {
    let mut engine = ColumnarEngine::new();
    assert_eq!(engine.parse_bytes(b"<R><Row A=\"1\"/><!-- open", b"Row"), Ok(()));
    assert_eq!(engine.num_rows(), 1);
}

#[test]
fn rows_after_a_stray_close_tag_count() {
    // The close tag of a parent that opened in an earlier chunk.
    let xml = b"<Row A=\"1\"/></Group><Row A=\"2\"><Text Name=\"T\"><TextValue>x &amp; y</TextValue></Text></Row><Row A=\"3\"/></R>";
    let mut engine = ColumnarEngine::new();
    engine.parse_bytes(xml, b"Row").unwrap();
    assert_eq!(engine.num_rows(), 3);
    assert_eq!(texts(&engine, "A"), &[some("1"), some("2"), some("3")]);
    assert_eq!(texts(&engine, "T"), &[None, some("x & y"), None]);
}

#[test]
fn cut_off_row_after_a_stray_close_tag_is_left_open() {
    let xml = b"</Group><Row A=\"1\"/><Row A=\"2\"><Field Name=\"B\"><Value>5";
    let mut engine = ColumnarEngine::new();
    engine.parse_bytes(xml, b"Row").unwrap();
    engine.normalize();
    assert_eq!(engine.num_rows(), 1);
    assert_eq!(texts(&engine, "A"), &[some("1")]);
}

#[test]
fn entities_in_attributes_and_texts() {
    let xml = b"<Row A=\"1 &lt; 2\"><Field Name=\"B&amp;C\"><Value>&#65;</Value></Field></Row>";
    let mut engine = ColumnarEngine::new();
    engine.parse_bytes(xml, b"Row").unwrap();
    assert_eq!(texts(&engine, "A"), &[some("1 < 2")]);
    assert_eq!(texts(&engine, "B&C"), &[some("A")]);
}

#[test]
fn unknown_entity_fails_the_row() {
    let mut engine = ColumnarEngine::new();
    assert!(engine.parse_bytes(b"<Row A=\"&nope;\"/>", b"Row").is_err());
    assert_eq!(engine.num_rows(), 0);
}

#[test]
fn duplicate_attribute_fails_the_row() {
    let mut engine = ColumnarEngine::new();
    assert!(engine.parse_bytes(b"<Row A=\"1\" A=\"2\"/>", b"Row").is_err());
}

fn tag(name: &str, rest: &str) -> Tag {
    Tag { name: name.as_bytes().to_vec(), rest: rest.as_bytes().to_vec() }
}

#[test]
fn rows_from_given_events() {
    let mut source = EventList::new(vec![
        XmlEvent::Start(tag("Row", " A=\"1\"")),
        XmlEvent::Start(tag("Field", " Name=\"B\"")),
        XmlEvent::Start(tag("Value", "")),
        XmlEvent::Text(b"2".to_vec()),
        XmlEvent::End(b"Value".to_vec()),
        XmlEvent::End(b"Field".to_vec()),
        XmlEvent::Empty(tag("Section", " SectionNumber=\"7\"")),
        XmlEvent::Other,
        XmlEvent::End(b"Row".to_vec()),
        XmlEvent::Empty(tag("Row", " A=\"3\"")),
    ]);
    let mut engine = ColumnarEngine::new();
    assert!(matches!(engine.read_rows(&mut source, b"Row"), ParseResult::Done));
    assert_eq!(engine.num_rows(), 2);
    assert_eq!(texts(&engine, "A"), &[some("1"), some("3")]);
    assert_eq!(texts(&engine, "B"), &[some("2"), None]);
    assert_eq!(texts(&engine, "Section"), &[some("7"), None]);
}

fn first_chunk() -> Vec<XmlEvent> {
    vec![
        XmlEvent::Start(tag("R", "")),
        XmlEvent::Empty(tag("Row", " A=\"1\" N=\"7\"")),
        XmlEvent::Empty(tag("Row", " A=\"x\"")),
    ]
}

fn second_chunk() -> Vec<XmlEvent> {
    vec![
        XmlEvent::Start(tag("Row", " B=\"2\"")),
        XmlEvent::Empty(tag("C", "")),
        XmlEvent::End(b"Row".to_vec()),
        XmlEvent::Empty(tag("Row", " A=\"1\" N=\"no\"")),
        XmlEvent::End(b"R".to_vec()),
    ]
}

#[test]
fn merged_chunks_read_as_the_whole() {
    let mut plan = BuildPlan::new();
    plan.dictionary_columns.insert("A".to_string());
    plan.field_types.insert("N".to_string(), FieldType::Int64);
    plan.filter = Some(FilterPredicate::NotEqual {
        field: "A".to_string(),
        value: "x".to_string(),
    });
    let read = |events: Vec<XmlEvent>| {
        let mut engine = ColumnarEngine::with_plan(4, plan.clone());
        let end = engine.read_rows(&mut EventList::new(events), b"Row");
        assert!(matches!(end, ParseResult::Done));
        engine
    };
    let mut all = first_chunk();
    all.extend(second_chunk());
    let whole = read(all);
    let mut merged = ColumnarEngine::with_plan(4, plan.clone());
    merged.extend(read(first_chunk())).unwrap();
    merged.extend(read(second_chunk())).unwrap();
    for engine in [&whole, &merged] {
        assert_eq!(engine.num_rows(), 3);
        assert_eq!(texts(engine, "A"), &[some("1"), None, some("1")]);
        assert_eq!(texts(engine, "N"), &[some("7"), None, None]);
        assert_eq!(texts(engine, "B"), &[None, some("2"), None]);
        assert_eq!(texts(engine, "C"), &[None, some(""), None]);
    }
}

#[test]
fn failures_in_given_events() {
    let mut between = EventList::new(vec![
        XmlEvent::Empty(tag("Row", "")),
        XmlEvent::Failed { message: "bad".to_string(), position: 9 },
    ]);
    let mut engine = ColumnarEngine::new();
    match engine.read_rows(&mut between, b"Row") {
        ParseResult::Broken { message, position } => {
            assert_eq!(message, "bad");
            assert_eq!(position, 9);
        }
        _ => panic!("expected a failure between rows"),
    }
    assert_eq!(engine.num_rows(), 1);
    let mut within = EventList::new(vec![
        XmlEvent::Start(tag("Row", "")),
        XmlEvent::Failed { message: "worse".to_string(), position: 1 },
    ]);
    match engine.read_rows(&mut within, b"Row") {
        ParseResult::Failed(message) => assert_eq!(message, "worse"),
        _ => panic!("expected a failure in a row"),
    }
}

#[test]
fn recovery_depends_on_the_message_and_on_what_follows() {
    let mut engine = ColumnarEngine::new();
    let xml = b"<Row A=\"1\"/></x><Row A=\"2\"/>";
    assert_eq!(engine.recover(xml, b"Row", "close tag `</x>` without start", 12), Ok(()));
    assert_eq!(engine.num_rows(), 1);
    assert_eq!(engine.recover(b"x </a>\x0c</b> ", b"Row", "bad", 1), Ok(()));
    assert_eq!(
        engine.recover(xml, b"Row", "bad", 12),
        Err("malformed XML at byte 12: bad".to_string())
    );
}

#[test]
fn lenient_rows_pass_over_errors() {
    let mut source = EventList::new(vec![
        XmlEvent::Start(tag("Row", " A=\"&nope;\" =\"x\" B=\"2\"")),
        XmlEvent::Start(tag("Text", " Name=\"T\"")),
        XmlEvent::End(b"Text".to_vec()),
        XmlEvent::Start(tag("Field", " Name=\"F\"")),
        XmlEvent::Failed { message: "bad".to_string(), position: 0 },
        XmlEvent::Empty(tag("Value", "")),
        XmlEvent::Text(b"5".to_vec()),
        XmlEvent::End(b"Field".to_vec()),
        XmlEvent::Failed { message: "bad".to_string(), position: 0 },
    ]);
    let mut engine = ColumnarEngine::new();
    assert!(engine.read_one_leniently(&mut source, b"Row"));
    assert_eq!(engine.num_rows(), 1);
    assert_eq!(texts(&engine, "A"), &[some("")]);
    assert_eq!(texts(&engine, "F"), &[some("5")]);
    assert!(engine.column("T").is_none());
}

#[test]
fn filter_on_a_renamed_field() {
    let xml = b"<R><Row A=\"1\"/><Row A=\"2\"/></R>";
    let mut plan = BuildPlan::new();
    plan.field_map.insert("A".to_string(), "B".to_string());
    plan.filter = Some(FilterPredicate::Equal { field: "A".to_string(), value: "2".to_string() });
    let mut engine = ColumnarEngine::with_plan(4, plan);
    engine.parse_bytes(xml, b"Row").unwrap();
    assert_eq!(texts(&engine, "B"), &[some("2")]);
}

#[test]
fn renamed_field_is_dropped_by_its_new_name() {
    let mut plan = BuildPlan::new();
    plan.field_map.insert("A".to_string(), "B".to_string());
    plan.drop_fields.insert("B".to_string());
    assert_eq!(plan.resolve_field("A"), None);
    assert_eq!(plan.resolve_field("C"), Some("C"));
    plan.drop_fields.insert("A".to_string());
    let mut other = BuildPlan::new();
    other.field_map.insert("A".to_string(), "B".to_string());
    other.drop_fields.insert("A".to_string());
    assert_eq!(other.resolve_field("A"), Some("B"));
}

#[test]
fn compare_filter_keeps_every_row_while_parsing() {
    let engine = filtered(
        b"<R><Details A=\"1\" B=\"2\"/><Details A=\"3\" B=\"3\"/></R>",
        FilterPredicate::Compare {
            field_a: "A".to_string(),
            op: CompareOp::Eq,
            field_b: "B".to_string(),
        },
    );
    assert_eq!(engine.num_rows(), 2);
}

#[test]
fn float_filter_is_settled_with_the_texts() {
    let xml = b"<R><Row A=\"1.50\" B=\"x\"/><Row A=\"2\" B=\"y\"/><Row B=\"z\"/></R>";
    let mut plan = BuildPlan::new();
    plan.field_types.insert("A".to_string(), FieldType::Float64);
    plan.filter = Some(FilterPredicate::Equal { field: "A".to_string(), value: "1.5".to_string() });
    let mut engine = ColumnarEngine::with_plan(4, plan);
    engine.parse_bytes(xml, b"Row").unwrap();
    // The row without a number is not equal to one.
    assert_eq!(engine.awaited_column().map(|numbers| numbers.len()), Some(2));
    engine.settle_filter(&[some("1.5"), some("2")]);
    assert_eq!(engine.num_rows(), 1);
    assert_eq!(texts(&engine, "B"), &[some("x")]);
    assert_eq!(column(&engine, "A").len(), 1);
}

#[test]
fn filters_give_opposite_answers() {
    let mut plan = BuildPlan::new();
    plan.field_types.insert("F".to_string(), FieldType::Float64);
    let mut engine = ColumnarEngine::with_plan(4, plan);
    engine.push_field_str("F", Some("1.50"));
    engine.push_field_str("S", Some("x"));
    engine.push_field_str("N", None);
    for (field, value, number, equal) in [
        ("F", "1.5", Some("1.5"), true),
        ("F", "1.50", Some("1.5"), false),
        ("F", "1.5", None, false),
        ("S", "x", None, true),
        ("S", "x", Some("y"), true),
        ("S", "y", Some("y"), false),
        ("N", "x", None, false),
        ("missing", "x", Some("x"), false),
    ] {
        let field = field.to_string();
        let value = value.to_string();
        let eq = FilterPredicate::Equal { field: field.clone(), value: value.clone() };
        let ne = FilterPredicate::NotEqual { field, value };
        assert_eq!(eq.check(&engine, number), equal);
        assert_eq!(ne.check(&engine, number), !equal);
    }
    let awaits = |field: &str| {
        FilterPredicate::Equal { field: field.to_string(), value: String::new() }.awaits(&engine)
    };
    assert!(awaits("F"));
    assert!(!awaits("S"));
    assert!(!awaits("missing"));
}

#[test]
fn float_filters_settle_alike_in_chunks() {
    let mut plan = BuildPlan::new();
    plan.field_types.insert("A".to_string(), FieldType::Float64);
    plan.filter = Some(FilterPredicate::Equal { field: "A".to_string(), value: "1.5".to_string() });
    let read = |xml: &[u8]| {
        let mut engine = ColumnarEngine::with_plan(4, plan.clone());
        engine.parse_bytes(xml, b"Row").unwrap();
        engine
    };
    let mut whole = read(b"<R><Row A=\"1.50\" B=\"x\"/><Row B=\"y\"/><Row A=\"2\" B=\"z\"/></R>");
    let mut merged = read(b"<R><Row A=\"1.50\" B=\"x\"/></R>");
    merged.extend(read(b"<R><Row B=\"y\"/><Row A=\"2\" B=\"z\"/></R>")).unwrap();
    for engine in [&mut whole, &mut merged] {
        assert_eq!(texts(engine, "B"), &[some("x"), some("z")]);
        engine.settle_filter(&[some("1.5"), some("2")]);
        assert_eq!(texts(engine, "B"), &[some("x")]);
    }
}

#[test]
fn a_row_ends_with_the_text_of_its_number() {
    let mut plan = BuildPlan::new();
    plan.field_types.insert("F".to_string(), FieldType::Float64);
    plan.filter = Some(FilterPredicate::Equal { field: "F".to_string(), value: "1.5".to_string() });
    let ended = |written: Option<&str>, number: Option<&str>| {
        let mut engine = ColumnarEngine::with_plan(4, plan.clone());
        engine.push_field_str("F", written);
        engine.finish_row(number);
        engine.num_rows()
    };
    assert_eq!(ended(Some("1.50"), Some("1.5")), 1);
    assert_eq!(ended(Some("1.50"), Some("1.50")), 0);
    assert_eq!(ended(Some("x"), None), 0);
    assert_eq!(ended(None, Some("1.5")), 0);
    let mut engine = ColumnarEngine::with_plan(4, plan.clone());
    engine.push_field_str("F", Some("1.50"));
    engine.close_row();
    engine.push_field_str("F", None);
    engine.close_row();
    assert_eq!(engine.num_rows(), 1);
    engine.settle_filter(&[some("2")]);
    assert_eq!(engine.num_rows(), 0);
}

#[test]
fn a_float_cell_is_compared_by_its_number() {
    let engine = typed(b"<R><Row A=\"1.50\"/><Row/></R>", "A", FieldType::Float64);
    let numbers = column(&engine, "A");
    assert_eq!(numbers.get_filter_value(0, Some("1.5")), some("1.5"));
    assert_eq!(numbers.get_filter_value(0, None), None);
    assert_eq!(numbers.get_filter_value(1, Some("1.5")), None);
    assert_eq!(numbers.get_filter_value(2, Some("1.5")), None);
}

#[test]
fn a_filter_keeps_rows_of_the_table_without_it() {
    let xml = b"<R><Row A=\"1.50\" B=\"x\"/><Row B=\"y\"/><Row A=\"2\" B=\"z\" C=\"c\"/></R>";
    let read = |filter: Option<FilterPredicate>| {
        let mut plan = BuildPlan::new();
        plan.field_types.insert("A".to_string(), FieldType::Float64);
        plan.filter = filter;
        let mut engine = ColumnarEngine::with_plan(4, plan);
        engine.parse_bytes(xml, b"Row").unwrap();
        engine
    };
    let all = read(None);
    assert_eq!(texts(&all, "B"), &[some("x"), some("y"), some("z")]);
    let mut other = read(Some(FilterPredicate::NotEqual {
        field: "A".to_string(),
        value: "1.5".to_string(),
    }));
    other.settle_filter(&[some("1.5"), None, some("2")]);
    assert_eq!(texts(&other, "B"), &[some("y"), some("z")]);
    assert_eq!(texts(&other, "C"), &[None, some("c")]);
    assert_eq!(other.column_names(), all.column_names());
    let one = read(Some(FilterPredicate::Equal { field: "B".to_string(), value: "x".to_string() }));
    assert_eq!(texts(&one, "C"), &[None]);
    assert_eq!(one.column_names(), all.column_names());
}

#[test]
fn chunks_have_the_columns_in_order() {
    let mut plan = BuildPlan::new();
    plan.schema_order = ["S1", "S2", "S3"].map(str::to_string).to_vec();
    let rows: [&[u8]; 4] = [
        b"<Row Y=\"1\"/>",
        b"<Row S2=\"2\" X=\"3\"/>",
        b"<Row Z=\"4\" S1=\"5\"/>",
        b"<Row S3=\"6\" X=\"7\"/>",
    ];
    let read = |chunk: &[&[u8]]| {
        let mut engine = ColumnarEngine::with_plan(4, plan.clone());
        engine.parse_bytes(&chunk.concat(), b"Row").unwrap();
        engine
    };
    let whole = read(&rows);
    let order = ["Y", "S1", "S2", "X", "Z", "S3"].map(str::to_string);
    assert_eq!(whole.column_names(), &order);
    for cut in 0..=rows.len() {
        let mut merged = read(&rows[..cut]);
        merged.extend(read(&rows[cut..])).unwrap();
        assert_eq!(merged.column_names(), &order);
    }
}

#[test]
fn settling_without_a_float_filter_changes_nothing() {
    let mut engine = ColumnarEngine::new();
    engine.parse_bytes(b"<Row A=\"1\"/>", b"Row").unwrap();
    assert!(engine.awaited_column().is_none());
    engine.settle_filter(&[None]);
    assert_eq!(engine.num_rows(), 1);
}

#[test]
fn schema_orders_the_columns() {
    let mut plan = BuildPlan::new();
    plan.schema_order = vec!["C".to_string(), "A".to_string()];
    let mut engine = ColumnarEngine::with_plan(4, plan);
    engine.parse_bytes(b"<Row A=\"1\" B=\"2\" C=\"3\"/>", b"Row").unwrap();
    assert_eq!(engine.column_names(), &["C".to_string(), "A".to_string(), "B".to_string()]);
}

#[test]
fn sorting_keeps_the_cells() {
    let mut engine = ColumnarEngine::new();
    engine.parse_bytes(b"<Row b=\"1\" a=\"2\" B=\"3\"/>", b"Row").unwrap();
    engine.sort_columns();
    assert_eq!(engine.column_names(), &["B".to_string(), "a".to_string(), "b".to_string()]);
    assert_eq!(texts(&engine, "b"), &[some("1")]);
    assert_eq!(texts(&engine, "a"), &[some("2")]);
}

#[test]
fn reset_keeps_the_plan() {
    let mut plan = BuildPlan::new();
    plan.drop_fields.insert("A".to_string());
    let mut engine = ColumnarEngine::with_plan(4, plan);
    engine.parse_bytes(b"<Row A=\"1\" B=\"2\"/>", b"Row").unwrap();
    engine.reset();
    assert_eq!((engine.num_rows(), engine.num_columns()), (0, 0));
    engine.parse_bytes(b"<Row A=\"1\" B=\"2\"/>", b"Row").unwrap();
    assert_eq!(engine.column_names(), &["B".to_string()]);
}

#[test]
fn bool_columns() {
    let xml = b"<R><Row A=\"true\"/><Row A=\"false\"/><Row A=\"TRUE\"/></R>";
    let engine = typed(xml, "A", FieldType::Boolean);
    if let ColumnBuilder::Boolean(v) = column(&engine, "A") {
        assert_eq!(v, &vec![Some(true), Some(false), None]);
    } else {
        panic!("expected Boolean builder");
    }
    assert_eq!(column(&engine, "A").get_filter_value(0, None), some("true"));
    assert_eq!(column(&engine, "A").get_filter_value(7, None), None);
}

#[test]
fn integer_columns_read_what_lexical_reads() {
    let texts = ["42", "-42", "+7", "9223372036854775807", "9223372036854775808", "", "1 ", "-0"];
    for text in texts {
        let xml = format!("<Row A=\"{}\"/>", text);
        let engine = typed(xml.as_bytes(), "A", FieldType::Int64);
        if let ColumnBuilder::Int64(v) = column(&engine, "A") {
            assert_eq!(v[0], lexical::parse::<i64, _>(text.as_bytes()).ok(), "{:?}", text);
        } else {
            panic!("expected Int64 builder");
        }
    }
}

#[test]
fn many_equal_texts_become_a_dictionary() {
    let mut xml = b"<R>".to_vec();
    for i in 0..512 {
        xml.extend_from_slice(format!("<Row A=\"{}\" B=\"{}\"/>", i % 16, i).as_bytes());
    }
    xml.extend_from_slice(b"</R>");
    let mut plan = BuildPlan::new();
    plan.auto_dict = true;
    let mut engine = ColumnarEngine::with_plan(4, plan);
    engine.parse_bytes(&xml, b"Row").unwrap();
    let before = row_values(&engine);
    engine.auto_dict_upgrade();
    assert_eq!(column(&engine, "A").field_type(), FieldType::Dictionary);
    assert_eq!(column(&engine, "B").field_type(), FieldType::String);
    assert_eq!(row_values(&engine), before);
}

#[test]
fn few_rows_stay_texts() {
    let mut plan = BuildPlan::new();
    plan.auto_dict = true;
    let mut engine = ColumnarEngine::with_plan(4, plan);
    engine.parse_bytes(b"<Row A=\"1\"/>", b"Row").unwrap();
    engine.auto_dict_upgrade();
    assert_eq!(column(&engine, "A").field_type(), FieldType::String);
}

#[test]
fn merged_dictionaries_read_alike() {
    let mut plan = BuildPlan::new();
    plan.dictionary_columns.insert("A".to_string());
    let mut a = ColumnarEngine::with_plan(4, plan.clone());
    a.parse_bytes(b"<R><Row A=\"x\"/><Row A=\"y\"/></R>", b"Row").unwrap();
    let mut b = ColumnarEngine::with_plan(4, plan);
    b.parse_bytes(b"<R><Row A=\"z\"/><Row/><Row A=\"x\"/></R>", b"Row").unwrap();
    a.extend(b).unwrap();
    let read: Vec<Option<String>> =
        (0..5).map(|i| column(&a, "A").get_filter_value(i, None)).collect();
    assert_eq!(read, vec![some("x"), some("y"), some("z"), None, some("x")]);
}

#[test]
fn columns_of_several_engines() {
    let mut empty = ColumnarEngine::new();
    empty.parse_bytes(b"<Row Z=\"1\"", b"Row").unwrap_or(());
    let mut a = ColumnarEngine::new();
    a.parse_bytes(b"<Row A=\"1\" B=\"2\"/>", b"Row").unwrap();
    let b = typed(b"<Row B=\"1\" C=\"2\"/>", "C", FieldType::Int64);
    let list = unified_columns(&[empty, a, b]);
    assert_eq!(
        list,
        vec![
            ("A".to_string(), FieldType::String),
            ("B".to_string(), FieldType::String),
            ("C".to_string(), FieldType::Int64),
        ]
    );
}

#[test]
fn text_columns_in_one_buffer() {
    let mut engine = ColumnarEngine::new();
    engine.parse_bytes(b"<R><Row A=\"ab\"/><Row/><Row A=\"c\"/></R>", b"Row").unwrap();
    if let ColumnBuilder::String(cells) = column(&engine, "A") {
        let (data, offsets, validity) = cells.parts();
        assert_eq!(data, b"abc");
        assert_eq!(offsets, &[0, 2, 2, 3]);
        assert_eq!(validity, &[true, false, true]);
    } else {
        panic!("expected String builder");
    }
}
