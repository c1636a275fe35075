use std::cell::Cell;
use std::sync::Arc;
use std::time::Instant;

use arrow::array::AsArray;
use arrow::record_batch::RecordBatch;
use crxml::error::Error;
use crxml::names::NameSet;
use crxml::xml::decoder::CrystalXmlDecoder;
use crxml::xml::reader::{MergingSink, ReadError};
use crxml::xml::scanner::{count_field_openings, scan_chunk};
use crxml::xml::sink::{ColumnarSink, RowCollector};
use rypipe_core::engine::TableBuilder;
use rypipe_core::{ColumnarSink as EngineSink, ExecutionPlan, FilterPredicate, Value};

/// A table of the engine as a sink of the library. Counts what it is asked.
struct Table {
    inner: TableBuilder,
    plan: ExecutionPlan,
    rejections: Cell<u64>,
    resolved: Cell<u64>,
}

impl Table {
    fn with_capacity(rows: usize) -> Self {
        Table {
            inner: TableBuilder::with_capacity(rows),
            plan: ExecutionPlan::new(),
            rejections: Cell::new(0),
            resolved: Cell::new(0),
        }
    }

    fn with_plan(rows: usize, plan: ExecutionPlan) -> Self {
        Table {
            inner: TableBuilder::with_plan(rows, Arc::new(plan.clone())),
            plan,
            rejections: Cell::new(0),
            resolved: Cell::new(0),
        }
    }

    fn finish(&mut self) -> RecordBatch {
        self.inner.finish().unwrap()
    }
}

impl ColumnarSink for Table {
    type Model = Table;

    fn begin_row(&mut self) {
        self.inner.begin_row();
    }

    fn resolve_and_put(&mut self, name: &str, value: &str) {
        self.inner.resolve_and_put(name, Value::Str(value.into()));
    }

    fn end_row(&mut self) {
        self.inner.end_row();
    }

    fn row_rejected(&self) -> bool {
        let rejected = self.inner.row_rejected();
        if rejected {
            self.rejections.set(self.rejections.get() + 1);
        }
        rejected
    }

    fn needs_value(&self) -> bool {
        self.inner.needs_value()
    }

    fn needs_resolve(&self) -> bool {
        self.inner.needs_resolve()
    }

    fn wants(&self, name: &str) -> bool {
        self.inner.wants(name)
    }

    fn resolve<'a>(&'a self, name: &'a str) -> Option<&'a str> {
        self.resolved.set(self.resolved.get() + 1);
        self.inner.resolve(name)
    }
}

impl MergingSink for Table {
    fn fresh(&self, rows: usize) -> Self {
        Table::with_plan(rows, self.plan.clone())
    }

    fn absorb(&mut self, other: Self) -> Result<(), String> {
        self.inner.extend(other.inner).map_err(|e| e.to_string())
    }
}

fn parse(xml: &[u8]) -> Table {
    let mut sink = Table::with_capacity(4);
    CrystalXmlDecoder::with_row_tag(b"Row").parse_chunk(xml, &mut sink).unwrap();
    sink
}

fn cell(batch: &RecordBatch, name: &str, row: usize) -> String {
    batch.column_by_name(name).unwrap().as_string::<i32>().value(row).to_string()
}

#[test]
fn test_row_attributes() {
    let xml = br#"<Rows><Row A="1" B="hello"/></Rows>"#;
    let mut sink = parse(xml);
    assert_eq!(sink.inner.num_rows(), 1);
    let batch = sink.finish();
    assert_eq!(cell(&batch, "A", 0), "1");
    assert_eq!(cell(&batch, "B", 0), "hello");
}

#[test]
fn test_field_child() {
    let xml = br#"<Row><Field Name="X"><Value>42</Value></Field></Row>"#;
    let mut sink = parse(xml);
    assert_eq!(sink.inner.num_rows(), 1);
    assert_eq!(cell(&sink.finish(), "X", 0), "42");
}

#[test]
fn test_field_both_children_value_wins() {
    let xml = br#"<Row><Field FieldName="X"><FormattedValue>abc</FormattedValue><Value>42</Value></Field></Row>"#;
    assert_eq!(cell(&parse(xml).finish(), "X", 0), "42");
}

#[test]
fn test_text_child() {
    let xml = br#"<Row><Text Name="Title"><TextValue>Report</TextValue></Text></Row>"#;
    let mut sink = parse(xml);
    assert_eq!(sink.inner.num_rows(), 1);
    assert_eq!(cell(&sink.finish(), "Title", 0), "Report");
}

#[test]
fn test_section_child() {
    let xml = br#"<Row><Section SectionNumber="3"/></Row>"#;
    let mut sink = parse(xml);
    assert_eq!(sink.inner.num_rows(), 1);
    assert_eq!(cell(&sink.finish(), "Section", 0), "3");
}

#[test]
fn test_unknown_child() {
    let xml = br#"<Row><Custom/></Row>"#;
    let mut sink = parse(xml);
    assert_eq!(sink.inner.num_rows(), 1);
    assert_eq!(cell(&sink.finish(), "Custom", 0), "");
}

#[test]
fn test_empty_input() {
    let sink = parse(b"");
    assert_eq!(sink.inner.num_rows(), 0);
}

#[test]
fn test_partial_trailing_row_discarded() {
    let xml = br#"<Row><Field Name="X"><Value>1</Value></Field></Row><Row><Field Name="X""#;
    let mut sink = parse(xml);
    assert_eq!(sink.inner.num_rows(), 1);
    assert_eq!(cell(&sink.finish(), "X", 0), "1");
}

#[test]
fn test_dropped_field_not_in_output() {
    let mut sink = Table::with_plan(4, ExecutionPlan::new().drop("DropMe"));
    let xml = br#"<Row><Field Name="Keep"><Value>1</Value></Field><Field Name="DropMe"><Value>x</Value></Field></Row>"#;
    CrystalXmlDecoder::with_row_tag(b"Row").parse_chunk(xml, &mut sink).unwrap();
    let batch = sink.finish();
    assert!(batch.column_by_name("DropMe").is_none());
    assert_eq!(cell(&batch, "Keep", 0), "1");
}

#[test]
fn test_entities_unescaped() {
    let xml = br#"<Row><Field FieldName="E"><FormattedValue>A &amp; B</FormattedValue></Field></Row>"#;
    assert_eq!(cell(&parse(xml).finish(), "E", 0), "A & B");
}

#[test]
fn test_filter_eq_keep_rows() {
    let mut sink = Table::with_plan(4, ExecutionPlan::new().filter_eq("S", "keep"));
    let xml = br#"<Rows>
<Row><Field Name="S"><Value>keep</Value></Field><Field Name="I"><Value>1</Value></Field></Row>
<Row><Field Name="S"><Value>drop</Value></Field><Field Name="I"><Value>2</Value></Field></Row>
<Row><Field Name="S"><Value>keep</Value></Field><Field Name="I"><Value>3</Value></Field></Row>
<Row><Field Name="S"><Value>keep</Value></Field><Field Name="I"><Value>4</Value></Field></Row>
<Row><Field Name="S"><Value>drop</Value></Field><Field Name="I"><Value>5</Value></Field></Row>
<Row><Field Name="S"><Value>keep</Value></Field><Field Name="I"><Value>6</Value></Field></Row>
</Rows>"#;
    CrystalXmlDecoder::with_row_tag(b"Row").parse_chunk(xml, &mut sink).unwrap();
    assert_eq!(sink.finish().num_rows(), 4, "expected 4 keep rows");
}

#[test]
fn predicate_skip_assertions() {
    let n_rows = 5_000usize;
    let mut xml = String::from("<?xml version=\"1.0\"?>\n<CrystalReport>");
    for i in 0..n_rows {
        xml.push_str(&format!(
            "<Details Level=\"{}\"><Field Name=\"Field1\"><Value>val{}</Value></Field>\n",
            i % 3,
            i % 100,
        ));
        xml.push_str("<Field Name=\"Field2\"><Value>v</Value></Field>\n");
        xml.push_str("<Field Name=\"Field3\"><Value>v</Value></Field>\n");
        xml.push_str("<Field Name=\"Field4\"><Value>v</Value></Field>\n");
        xml.push_str("<Field Name=\"Field5\"><Value>v</Value></Field>\n");
        xml.push_str(&format!("<Field Name=\"Field6\"><Value>val{}</Value></Field>\n", i % 100));
        xml.push_str("<Field Name=\"Field7\"><Value>v</Value></Field>\n");
        xml.push_str("<Field Name=\"Field8\"><Value>v</Value></Field>\n");
        xml.push_str("<Field Name=\"Field9\"><Value>v</Value></Field>\n");
        xml.push_str("<Field Name=\"Field10\"><Value>v</Value></Field>\n");
        xml.push_str(&format!("<Field Name=\"Field11\"><Value>val{}</Value></Field>\n", i % 100));
        xml.push_str("</Details>");
    }
    xml.push_str("</CrystalReport>");
    let bytes = xml.as_bytes();
    let fields = count_field_openings(bytes);
    assert_eq!(fields, 11 * n_rows as u64);

    // How many rows are rejected, and how many of their fields are never visited.
    let run = |field: &str| -> (u64, u64) {
        let mut plan = ExecutionPlan::new();
        plan.filter = Some(FilterPredicate::Equal {
            field: field.to_string(),
            value: "999".to_string(),
        });
        let mut table = Table::with_plan(n_rows, plan);
        scan_chunk(bytes, b"Details", &mut table).unwrap();
        assert_eq!(table.finish().num_rows(), 0);
        (table.rejections.get(), fields - table.resolved.get())
    };
    for (field, skipped) in [("Field1", 10), ("Field6", 5), ("Field11", 0)] {
        let (rejected, unvisited) = run(field);
        assert_eq!(rejected, n_rows as u64, "{}: should reject all rows", field);
        assert_eq!(unvisited / rejected, skipped, "{}: skip ratio", field);
    }
}

fn synth_xml(rows: usize) -> Vec<u8> {
    let mut out = Vec::with_capacity(rows * 1100);
    out.extend_from_slice(b"<?xml version=\"1.0\" encoding=\"UTF-8\"?><CrystalReport>");
    for i in 0..rows {
        out.extend_from_slice(
            format!(
                "<Details Level=\"{}\">\
<Field Name=\"F22\" FieldName=\"{{a.PrecioImp}}\"><FormattedValue>1,157.{}</FormattedValue><Value>7428.{}</Value></Field>\
<Field Name=\"F23\" FieldName=\"{{a.Cantidad}}\"><FormattedValue>{}</FormattedValue><Value>{}</Value></Field>\
<Field Name=\"F38\" FieldName=\"{{a.Nombre}}\"><FormattedValue>Distribuidora del Sur S.A.</FormattedValue><Value>Distribuidora del Sur S.A.</Value></Field>\
<Text Name=\"T20\"><TextValue>%</TextValue></Text>\
<Section SectionNumber=\"0\"/>\
</Details>",
                i % 3,
                i % 100,
                i % 100,
                i % 500,
                i % 500
            )
            .as_bytes(),
        );
    }
    out.extend_from_slice(b"</CrystalReport>");
    out
}

/// A sink that takes no values, and names only where asked for.
struct Walker {
    names: bool,
    rows: usize,
}

impl ColumnarSink for Walker {
    type Model = Walker;

    fn begin_row(&mut self) {}

    fn resolve_and_put(&mut self, _name: &str, _value: &str) {}

    fn end_row(&mut self) {
        self.rows += 1;
    }

    fn row_rejected(&self) -> bool {
        false
    }

    fn needs_value(&self) -> bool {
        false
    }

    fn needs_resolve(&self) -> bool {
        self.names
    }

    fn wants(&self, _name: &str) -> bool {
        true
    }

    fn resolve<'a>(&'a self, name: &'a str) -> Option<&'a str> {
        Some(name)
    }
}

#[test]
fn perf_scanner_ceiling() {
    let xml = synth_xml(80_000);
    let t0 = Instant::now();
    let count = memchr::memmem::find_iter(&xml, b"<Details").count();
    println!("scan_only  {:?}", t0.elapsed());
    for names in [false, true] {
        let mut walker = Walker { names, rows: 0 };
        let t0 = Instant::now();
        scan_chunk(&xml, b"Details", &mut walker).unwrap();
        println!("traverse   {:?} (names: {})", t0.elapsed(), names);
        assert_eq!(walker.rows, count);
    }
    let mut table = Table::with_capacity(90_000);
    let t0 = Instant::now();
    scan_chunk(&xml, b"Details", &mut table).unwrap();
    let batch = table.finish();
    println!("full_parse {:?}", t0.elapsed());
    let rows = batch.num_rows();
    assert!(rows > 0, "full_parse produced zero rows");
    assert!(batch.num_columns() > 0, "full_parse produced zero columns");
    assert_eq!(count, rows, "tiers are inconsistent");
}

#[test]
fn perf_predicate_first() {
    let n_rows = 20_000usize;
    let mut xml = Vec::with_capacity(n_rows * 1100);
    xml.extend_from_slice(b"<?xml version=\"1.0\" encoding=\"UTF-8\"?><CrystalReport>");
    for i in 0..n_rows {
        xml.extend_from_slice(
            format!(
                "<Details Level=\"{}\">\
<Field Name=\"Field1\" FieldName=\"{{a.F1}}\"><Value>{}</Value></Field>\
<Field Name=\"Field2\" FieldName=\"{{a.F2}}\"><Value>{}</Value></Field>\
<Field Name=\"Field3\" FieldName=\"{{a.F3}}\"><Value>text3</Value></Field>\
<Field Name=\"Field4\" FieldName=\"{{a.F4}}\"><Value>text4</Value></Field>\
<Field Name=\"Field5\" FieldName=\"{{a.F5}}\"><Value>{}</Value></Field>\
<Field Name=\"Field6\" FieldName=\"{{a.F6}}\"><Value>text6</Value></Field>\
<Field Name=\"Field7\" FieldName=\"{{a.F7}}\"><Value>text7</Value></Field>\
<Field Name=\"Field8\" FieldName=\"{{a.F8}}\"><Value>text8</Value></Field>\
<Field Name=\"Field9\" FieldName=\"{{a.F9}}\"><Value>text9</Value></Field>\
<Field Name=\"Field10\" FieldName=\"{{a.F10}}\"><Value>text10</Value></Field>\
<Field Name=\"Field11\" FieldName=\"{{a.F11}}\"><Value>{}</Value></Field>\
</Details>",
                i % 3,
                i % 100,
                i % 100,
                i % 200,
                i % 100,
            )
            .as_bytes(),
        );
    }
    xml.extend_from_slice(b"</CrystalReport>");

    let run = |filter: Option<FilterPredicate>| -> usize {
        let mut plan = ExecutionPlan::new();
        plan.filter = filter;
        let mut table = Table::with_plan(n_rows, plan);
        let t0 = Instant::now();
        scan_chunk(&xml, b"Details", &mut table).unwrap();
        let rows = table.finish().num_rows();
        println!("{:?} for {} rows", t0.elapsed(), rows);
        rows
    };
    assert_eq!(run(None), n_rows);
    for (field, zeros) in [("Field1", n_rows / 100), ("Field6", 0), ("Field11", n_rows / 100)] {
        // No row has the value: none is kept by `==`, and all are kept by `!=`.
        let absent = FilterPredicate::Equal { field: field.to_string(), value: "999".to_string() };
        assert_eq!(run(Some(absent)), 0);
        let present =
            FilterPredicate::NotEqual { field: field.to_string(), value: "999".to_string() };
        assert_eq!(run(Some(present)), n_rows);
        let some = FilterPredicate::Equal { field: field.to_string(), value: "0".to_string() };
        assert_eq!(run(Some(some)), zeros);
    }
}

// Beyond the documented cases.

#[test]
fn validation_refuses_bytes_that_are_no_text() {
    let decoder = CrystalXmlDecoder::with_row_tag(b"Row");
    assert!(decoder.validate("<Row A=\"é\"/>".as_bytes()).is_ok());
    assert!(matches!(decoder.validate(b"\xc3"), Err(Error::Utf8)));
}

#[test]
fn ranges_of_a_document() {
    let xml = "<Row A=\"1\"/><Row A=\"é\"/>".as_bytes();
    let decoder = CrystalXmlDecoder::with_row_tag(b"Row");
    let mut sink = RowCollector::new(NameSet::new());
    assert_eq!(decoder.parse_range(xml, 12..xml.len(), &mut sink), Ok(()));
    assert_eq!(sink.rows().len(), 1);
    assert_eq!(sink.rows()[0][0].1, "é");
    // The cut goes through a character.
    assert_eq!(
        decoder.parse_range(xml, 0..21, &mut sink),
        Err("Columnar parse error in chunk 0..21: invalid UTF-8: invalid utf-8 sequence".to_string())
    );
    assert_eq!(sink.rows().len(), 1);
}

#[test]
fn rejected_row_is_skipped_to_its_own_close_tag() {
    let mut sink = Table::with_plan(4, ExecutionPlan::new().filter_eq("S", "x"));
    let xml = b"<Row><Field Name=\"S\"><Value>y</Value></Field><Details></Details><A/></Row><Row S=\"x\"/>";
    scan_chunk(xml, b"Row", &mut sink).unwrap();
    assert_eq!(sink.finish().num_rows(), 1);
}

#[test]
fn field_openings() {
    assert_eq!(count_field_openings(b""), 0);
    assert_eq!(count_field_openings(b"<Field/><FieldX></Field><Fiel"), 2);
}

const THREE_ROWS: &[u8] =
    b"<R><Row A=\"1\"/><Row A=\"2\"><Field Name=\"B\"><Value>x</Value></Field></Row><Row A=\"3\"/></R>";

#[test]
fn whole_documents_are_read_or_refused() {
    let decoder = CrystalXmlDecoder::with_row_tag(b"Row");
    let mut rows = RowCollector::new(NameSet::new());
    assert!(decoder.read(THREE_ROWS, &mut rows).is_ok());
    assert_eq!(rows.rows().len(), 3);
    assert!(matches!(decoder.read(b"<Row A=\"\xff\"/>", &mut rows), Err(Error::Utf8)));
    assert_eq!(rows.rows().len(), 3);
}

#[test]
fn split_reading_gives_the_rows_of_the_whole() {
    let decoder = CrystalXmlDecoder::with_row_tag(b"Row");
    let mut whole = RowCollector::new(NameSet::new());
    decoder.read(THREE_ROWS, &mut whole).unwrap();
    let end = THREE_ROWS.len();
    for points in [vec![], vec![0, end], vec![0, 15, end], vec![0, 15, 15, 72, end]] {
        let mut split = RowCollector::new(NameSet::new());
        assert_eq!(decoder.read_split(THREE_ROWS, &points, 512, &mut split), Ok(()));
        assert_eq!(split.rows(), whole.rows());
    }
    assert_eq!(&THREE_ROWS[15..19], b"<Row");
    assert_eq!(&THREE_ROWS[72..76], b"<Row");
}

#[test]
fn split_reading_keeps_dropped_fields_out() {
    let decoder = CrystalXmlDecoder::with_row_tag(b"Row");
    let mut dropped = NameSet::new();
    dropped.insert("A".to_string());
    let mut split = RowCollector::new(dropped);
    decoder.read_split(THREE_ROWS, &[0, 15, THREE_ROWS.len()], 512, &mut split).unwrap();
    assert_eq!(split.rows(), &[vec![], vec![("B".to_string(), "x".to_string())], vec![]]);
}

#[test]
fn split_reading_stops_at_a_chunk_that_is_not_text() {
    let decoder = CrystalXmlDecoder::with_row_tag(b"Row");
    let xml = b"<Row A=\"1\"/><Row A=\"\xff\"/>";
    let mut rows = RowCollector::new(NameSet::new());
    assert_eq!(
        decoder.read_split(xml, &[0, 12, 24], 512, &mut rows),
        Err(ReadError::Xml(
            "Columnar parse error in chunk 12..24: invalid UTF-8: invalid utf-8 sequence".to_string()
        ))
    );
    assert_eq!(rows.rows().len(), 1);
}

/// A sink that takes the rows of no other one.
struct Alone(RowCollector);

impl ColumnarSink for Alone {
    type Model = Alone;

    fn begin_row(&mut self) {
        self.0.begin_row();
    }

    fn resolve_and_put(&mut self, name: &str, value: &str) {
        self.0.resolve_and_put(name, value);
    }

    fn end_row(&mut self) {
        self.0.end_row();
    }

    fn row_rejected(&self) -> bool {
        false
    }

    fn needs_value(&self) -> bool {
        true
    }

    fn needs_resolve(&self) -> bool {
        true
    }

    fn wants(&self, _name: &str) -> bool {
        true
    }

    fn resolve<'a>(&'a self, name: &'a str) -> Option<&'a str> {
        Some(name)
    }
}

impl MergingSink for Alone {
    fn fresh(&self, _rows: usize) -> Self {
        Alone(RowCollector::new(NameSet::new()))
    }

    fn absorb(&mut self, other: Self) -> Result<(), String> {
        Err(format!("{} rows too many", other.0.rows().len()))
    }
}

#[test]
fn split_reading_stops_at_a_conflict() {
    let decoder = CrystalXmlDecoder::with_row_tag(b"Row");
    let mut sink = Alone(RowCollector::new(NameSet::new()));
    assert_eq!(
        decoder.read_split(THREE_ROWS, &[0, 72, THREE_ROWS.len()], 512, &mut sink),
        Err(ReadError::Merge("2 rows too many".to_string()))
    );
}

#[test]
fn split_reading_fills_a_table_of_the_engine() {
    let decoder = CrystalXmlDecoder::with_row_tag(b"Row");
    let mut whole = Table::with_plan(4, ExecutionPlan::new());
    decoder.read(THREE_ROWS, &mut whole).unwrap();
    let mut split = Table::with_plan(4, ExecutionPlan::new());
    decoder.read_split(THREE_ROWS, &[0, 15, 72, THREE_ROWS.len()], 512, &mut split).unwrap();
    assert_eq!(whole.finish(), split.finish());
}
