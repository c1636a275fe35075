use crxml::names::NameSet;
use crxml::xml::scanner::{field_element, scan_chunk, Flow};
use crxml::xml::sink::{RowCollector, RowSink};
use crxml::xml::tokens::scan_open_tag;

type Rows = Vec<Vec<(String, String)>>;

fn scan_dropping(xml: &[u8], tag: &[u8], fields: &[&str]) -> Rows {
    let mut dropped = NameSet::new();
    for field in fields {
        dropped.insert(field.to_string());
    }
    let mut sink = RowCollector::new(dropped);
    scan_chunk(xml, tag, &mut sink).unwrap();
    sink.rows().to_vec()
}

fn scan_with_tag(xml: &[u8], tag: &[u8]) -> Rows {
    scan_dropping(xml, tag, &[])
}

fn scan(xml: &[u8]) -> Rows {
    scan_with_tag(xml, b"Row")
}

fn pair(name: &str, value: &str) -> (String, String) {
    (name.to_string(), value.to_string())
}

#[test]
fn row_attributes() {
    let rows = scan(br#"<Rows><Row A="1" B="hello"/></Rows>"#);
    assert_eq!(rows, vec![vec![pair("A", "1"), pair("B", "hello")]]);
}

#[test]
fn paired_row_with_attrs_and_children() {
    let xml = br#"<Row Level="3"><Field Name="X"><Value>42</Value></Field></Row>"#;
    assert_eq!(scan(xml), vec![vec![pair("Level", "3"), pair("X", "42")]]);
}

#[test]
fn field_value_last_wins() {
    let xml = br#"<Row><Field Name="X"><FormattedValue>abc</FormattedValue><Value>42</Value></Field></Row>"#;
    assert_eq!(scan(xml)[0][0].1, "42");
}

#[test]
fn field_empty_body_keeps_previous_text() {
    let xml = br#"<Row><Field Name="X"><FormattedValue>keep</FormattedValue><Value></Value></Field></Row>"#;
    assert_eq!(scan(xml)[0][0].1, "keep");
}

#[test]
fn field_name_attr_order_preference() {
    let a = scan(br#"<Row><Field Name="A" FieldName="B"><Value>1</Value></Field></Row>"#);
    assert_eq!(a[0][0].0, "A");
    let b = scan(br#"<Row><Field FieldName="B" Name="A"><Value>1</Value></Field></Row>"#);
    assert_eq!(b[0][0].0, "B");
}

#[test]
fn field_default_key_without_attrs() {
    let rows = scan(br#"<Row><Field><Value>7</Value></Field></Row>"#);
    assert_eq!(rows[0][0].0, "Field");
}

#[test]
fn text_element() {
    let xml = br#"<Row><Text Name="Title"><TextValue>Report</TextValue></Text></Row>"#;
    assert_eq!(scan(xml), vec![vec![pair("Title", "Report")]]);
}

#[test]
fn text_default_key() {
    let xml = br#"<Row><Text><TextValue>%</TextValue></Text></Row>"#;
    assert_eq!(scan(xml)[0][0].0, "Text");
}

#[test]
fn section_self_closing() {
    let xml = br#"<Row><Section SectionNumber="3"/></Row>"#;
    assert_eq!(scan(xml), vec![vec![pair("Section", "3")]]);
}

#[test]
fn field_and_text_self_closing() {
    let xml = br#"<Row><Field Name="A"/><Field Name="B"><Value>1</Value></Field><Text/></Row><Row/>"#;
    assert_eq!(
        scan(xml),
        vec![vec![pair("A", ""), pair("B", "1"), pair("Text", "")], vec![]]
    );
}

#[test]
fn self_closing_field_ends_with_its_tag() {
    let xml = br#"<Field Name="A"/><Field Name="B"><Value>1</Value></Field>"#;
    let open = scan_open_tag(xml, 0).unwrap();
    let mut sink = RowSink::new();
    assert!(matches!(field_element(xml, &open, &[], &mut sink), Flow::At(17)));
    assert_eq!(sink.row, vec![pair("A", "")]);
}

#[test]
fn section_paired_without_number() {
    let xml = br#"<Row><Section></Section></Row>"#;
    assert_eq!(scan(xml), vec![vec![pair("Section", "")]]);
}

#[test]
fn unknown_child_emits_empty() {
    assert_eq!(scan(br#"<Row><Custom/></Row>"#), vec![vec![pair("Custom", "")]]);
}

#[test]
fn unknown_nested_children_all_emitted() {
    let xml = br#"<Row><Foo><Bar/></Foo></Row>"#;
    let rows = scan(xml);
    assert_eq!(rows[0][0].0, "Foo");
    assert_eq!(rows[0][1].0, "Bar");
}

#[test]
fn dropped_field_skipped_byte_wise() {
    let xml = br#"<Row><Field Name="Keep"><Value>1</Value></Field><Field Name="DropMe"><Value>x</Value><Extra>junk</Extra></Field><Field Name="Also"><Value>2</Value></Field></Row>"#;
    let rows = scan_dropping(xml, b"Row", &["DropMe"]);
    let names: Vec<&str> = rows[0].iter().map(|(k, _)| k.as_str()).collect();
    assert_eq!(names, vec!["Keep", "Also"]);
    assert_eq!(rows[0][0].1, "1");
    assert_eq!(rows[0][1].1, "2");
}

#[test]
fn dropped_field_followed_by_fake_row_marker() {
    let xml = br#"<Row><Field Name="Trap"><Value>nope</Value></Field><Row>fake</Row><Field Name="After"><Value>yes</Value></Field></Row>"#;
    let rows = scan_dropping(xml, b"Row", &["Trap"]);
    assert_eq!(rows.len(), 1);
    let names: Vec<&str> = rows[0].iter().map(|(k, _)| k.as_str()).collect();
    assert_eq!(names, vec!["Row"]);
}

#[test]
fn partial_trailing_row_discarded() {
    let xml = br#"<Row><Field Name="X"><Value>1</Value></Field></Row><Row><Field Name="X""#;
    let rows = scan(xml);
    assert_eq!(rows.len(), 1);
    assert_eq!(rows[0][0].1, "1");
}

#[test]
fn comment_between_rows_with_fake_marker() {
    let mut xml = b"<Row><Field Name=\"A\"><Value>1</Value></Field></Row>".to_vec();
    xml.extend_from_slice(b"<!-- <Row><Field Name=\"B\"><Value>2</Value></Field></Row> -->");
    xml.extend_from_slice(b"<Row><Field Name=\"C\"><Value>3</Value></Field></Row>");
    let rows = scan(&xml);
    assert_eq!(rows.len(), 2);
    assert_eq!(rows[0][0].0, "A");
    assert_eq!(rows[1][0].0, "C");
}

#[test]
fn cdata_inside_value_body_treated_as_markup_start() {
    let xml = br#"<Row><Field Name="X"><FormattedValue><![CDATA[raw]]></FormattedValue></Field></Row>"#;
    assert_eq!(scan(xml)[0][0].1, "");
}

#[test]
fn entities_unescaped_in_values() {
    let xml = br#"<Row><Field Name="E"><Value>A &amp; B &lt;10</Value></Field></Row>"#;
    assert_eq!(scan(xml)[0][0].1, "A & B <10");
}

#[test]
fn gt_inside_attribute_value() {
    let xml = br#"<Row><Field Name="a>b"><Value>1</Value></Field></Row>"#;
    assert_eq!(scan(xml)[0][0].0, "a>b");
}

#[test]
fn prefix_collision_tags_ignored_as_unknown() {
    let xml = br#"<Row><Values>v</Values><FieldValue/></Row>"#;
    let rows = scan(xml);
    let names: Vec<&str> = rows[0].iter().map(|(k, _)| k.as_str()).collect();
    assert_eq!(names, vec!["Values", "FieldValue"]);
}

#[test]
fn junk_header_and_trailer_around_rows() {
    let mut xml = b"<?xml version=\"1.0\"?><R><Group g=\"1\">".to_vec();
    xml.extend_from_slice(b"<Row><Field Name=\"A\"><Value>1</Value></Field></Row>");
    xml.extend_from_slice(b"<Row><Field Name=\"A\"><Value>2</Value></Field></Row>");
    xml.extend_from_slice(b"</Group></R>");
    assert_eq!(scan(&xml).len(), 2);
}

#[test]
fn custom_row_tag_details() {
    let xml = br#"<Details Level="3"><Field Name="F"><Value>v</Value></Field></Details>"#;
    let rows = scan_with_tag(xml, b"Details");
    assert_eq!(rows, vec![vec![pair("Level", "3"), pair("F", "v")]]);
}

#[test]
fn empty_input_no_rows() {
    assert!(scan(b"").is_empty());
}

#[test]
fn whitespace_between_children_skipped() {
    let xml = b"<Row>\n  <Field Name=\"A\">\n    <Value>1</Value>\n  </Field>\n</Row>";
    assert_eq!(scan(xml), vec![vec![pair("A", "1")]]);
}

#[test]
fn single_quote_attributes() {
    let xml = br#"<Row A='1'><Field Name='X'><Value>5</Value></Field></Row>"#;
    let rows = scan(xml);
    assert_eq!(rows[0][0], pair("A", "1"));
    assert_eq!(rows[0][1].0, "X");
}

#[test]
fn random_bytes_no_panic() {
    let seeds: &[&[u8]] = &[
        b"",
        b"<",
        b"<Row",
        b"<Row>",
        b"<Ro",
        b"<<<<",
        b"<Row A=\"1\"/><Row B=\"2\"/>",
        b"<!-- <Row> -->",
        b"<![CDATA[<Row>]]>",
        b"\0\0\0\0",
        b"\xff\xff\xff\xff",
        b"<Row>\x00\x00<Row>",
        b"<Row><!--<Row>--><Row/>",
        b"<Row><![CDATA[<Row>]]><Row/>",
        b"<Row><Field Name=\"A\"",
        b"<Row><Field Name=A><Value>1</Value></Field></Row>",
        b"<Row><Field Name=\"A\"><Value>unterminated",
        b"<Row></Row></Row>",
        b"</Row>",
        b"<Row/><Row/>",
        b"<Details><Section SectionNumber=\"0\"><Field Name=\"X\"><Value>1</Value></Field></Section></Details>",
        b"<Row A=\"=><\" B='\"'/></Row>",
    ];
    let tags: &[&[u8]] = &[b"Row", b"Details", b"Item"];
    for seed in seeds {
        for tag in tags {
            let mut sink = RowCollector::new(NameSet::new());
            let _ = scan_chunk(seed, tag, &mut sink);
        }
    }
}

// Beyond the documented cases.

#[test]
fn malformed_attribute_abandons_the_row() {
    // The first row lacks quotes: the scan goes on at the next row start.
    let xml = b"<Row A=1><Field Name=\"X\"><Value>1</Value></Field></Row><Row B=\"2\"/>";
    assert_eq!(scan(xml), vec![vec![pair("B", "2")]]);
}

#[test]
fn malformed_field_attribute_abandons_the_row() {
    let xml = b"<Row><Field Name=A><Value>1</Value></Field></Row><Row B=\"2\"/>";
    assert_eq!(scan(xml), vec![vec![pair("B", "2")]]);
}

#[test]
fn unknown_entity_keeps_the_text() {
    let xml = b"<Row A=\"1 &nope; 2\"/>";
    assert_eq!(scan(xml), vec![vec![pair("A", "1 &nope; 2")]]);
}

#[test]
fn bytes_that_are_no_text_give_empty_values() {
    let xml = b"<Row A=\"\xff\"/>";
    assert_eq!(scan(xml), vec![vec![pair("A", "")]]);
}

#[test]
fn processing_instruction_in_a_row_is_skipped() {
    let xml = b"<Row><?pi a > b?><Field Name=\"A\"><Value>1</Value></Field></Row>";
    assert_eq!(scan(xml), vec![vec![pair("A", "1")]]);
}

#[test]
fn close_tag_may_hold_white_space() {
    let xml = b"<Row><Field Name=\"A\"><Value>1</Value ></Field\n></Row\t>";
    assert_eq!(scan(xml), vec![vec![pair("A", "1")]]);
}

#[test]
fn text_before_markup_counts() {
    let xml = b"<Row><Field Name=\"A\"><Value>1<b>2</b></Value></Field></Row>";
    assert_eq!(scan(xml), vec![vec![pair("A", "1")]]);
}

#[test]
fn two_chunks_have_the_rows_of_the_document() {
    let xml: &[u8] = b"<R><Row A=\"1\"/><!-- <Row/> --><Row><Field Name=\"B\"><Value>2</Value></Field></Row><Row C=\"3\"/></R>";
    let whole = scan(xml);
    assert_eq!(whole.len(), 3);
    let cut = xml.windows(7).position(|w| w == b"<Row><F").unwrap();
    let mut parts = scan(&xml[..cut]);
    parts.extend(scan(&xml[cut..]));
    assert_eq!(parts, whole);
}

#[test]
fn chunk_that_cuts_a_row_off_drops_it() {
    let xml: &[u8] = b"<Row A=\"1\"/><Row><Field Name=\"B\"><Value>2</Value></Field></Row>";
    let cut = xml.windows(7).position(|w| w == b"<Field ").unwrap();
    assert_eq!(scan(&xml[..cut]), vec![vec![pair("A", "1")]]);
    assert!(scan(&xml[cut..]).is_empty());
}
