use crxml::xml::tokens::{
    find_attr_value, find_close_details, scan_close_tag, scan_open_tag, skip_construct, AttrIter,
};

#[test]
fn regression_pat_details_close_tag_found() {
    let xml = b"<Row><Details><Field Name=\"A\"><Value>1</Value></Field></Details></Row>";
    let regions = &[];
    let result = find_close_details(xml, 0, regions);
    assert!(result.is_some(), "find_close_details must find </Details> on well-formed XML");
    let pos = result.unwrap();
    assert_eq!(&xml[pos..], b"</Row>", "cursor should be right after </Details>");
}

#[test]
fn regression_pat_details_boundary_check_position() {
    let xml = b"</Details>";
    let result = find_close_details(xml, 0, &[]);
    assert!(result.is_some(), "</Details> at EOF must be found");
    assert_eq!(result.unwrap(), xml.len(), "cursor should be at EOF");
}

#[test]
fn close_details_in_a_region_does_not_count() {
    let xml = b"<!-- </Details> --></Details>";
    assert_eq!(find_close_details(xml, 0, &[0..19]), Some(xml.len()));
    assert_eq!(find_close_details(b"</DetailsX>", 0, &[]), None);
}

#[test]
fn open_tag_parts() {
    let xml = b"<Field Name=\"a>b\"/>";
    let tag = scan_open_tag(xml, 0).unwrap();
    assert_eq!(tag.name, b"Field");
    assert_eq!(tag.interior(xml), b" Name=\"a>b\"");
    assert!(tag.self_closing);
    assert_eq!(tag.after(), xml.len());
    assert!(scan_open_tag(b"<>", 0).is_none());
    assert!(scan_open_tag(b"<a b=\"", 0).is_none());
}

#[test]
fn close_tag_parts() {
    assert_eq!(scan_close_tag(b"</Row >", 0), Some((&b"Row"[..], 7)));
    assert_eq!(scan_close_tag(b"</Row", 0), None);
    assert_eq!(scan_close_tag(b"</ >", 0), Some((&b" "[..], 4)));
}

#[test]
fn constructs_end_where_they_close() {
    assert_eq!(skip_construct(b"<!-- > -->x", 0), Some(10));
    assert_eq!(skip_construct(b"<![CDATA[ > ]]>x", 0), Some(15));
    assert_eq!(skip_construct(b"<?pi?>x", 0), Some(6));
    assert_eq!(skip_construct(b"<!-- x", 0), None);
}

#[test]
fn attribute_values() {
    let keys: [&[u8]; 1] = [b"B"];
    assert_eq!(find_attr_value(b" A=\"1\" B= '2'", &keys), Ok(Some(&b"2"[..])));
    assert_eq!(find_attr_value(b" B ='2'", &keys), Err(()));
    assert_eq!(find_attr_value(b" A=\"1\"", &keys), Ok(None));
    assert_eq!(find_attr_value(b" A B=\"2\"", &keys), Err(()));
    assert_eq!(find_attr_value(b" B=2", &keys), Err(()));
    assert_eq!(find_attr_value(b" B=\"2", &keys), Err(()));
}

#[test]
fn missing_quotes_are_malformed() {
    let mut attrs = AttrIter::new(b" A=\"1");
    assert_eq!(attrs.next(), Some(Err(())));
    assert_eq!(attrs.next(), None);
    let mut attrs = AttrIter::new(b" A=1\"");
    assert_eq!(attrs.next(), Some(Err(())));
}
