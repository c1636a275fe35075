use crxml::error::Error;
use crxml::stream::RowParser;

const XML: &[u8] =
    b"<R><Row A=\"1\"/><!-- <Row/> --><Row><Field Name=\"B\"><Value>2</Value></Field><C/></Row><Row A=\"3\"/><Row><Field";

#[test]
fn rows_come_one_by_one() {
    let mut parser = RowParser::new(XML, b"Row").unwrap();
    assert_eq!(parser.read_one_row(XML), Some(1));
    assert_eq!(parser.take_row(), vec![("A".to_string(), "1".to_string())]);
    assert_eq!(parser.read_one_row(XML), Some(2));
    assert_eq!(
        parser.take_row(),
        vec![("B".to_string(), "2".to_string()), ("C".to_string(), String::new())]
    );
    assert_eq!(parser.read_one_row(XML), Some(1));
    assert_eq!(parser.read_one_row(XML), None);
    assert_eq!(parser.read_one_row(XML), None);
}

#[test]
fn batches_hold_the_rows_in_order() {
    let mut parser = RowParser::new(XML, b"Row").unwrap();
    assert!(parser.batch_parts().0.is_empty() && parser.batch_parts().1.is_empty());
    assert_eq!(parser.read_batch_into(XML, 2), 2);
    let (fields, lens) = parser.batch_parts();
    assert_eq!(lens, &[1, 2]);
    assert_eq!(fields[1], ("B".to_string(), "2".to_string()));
    assert_eq!(parser.read_batch_into(XML, 0), 0);
    assert_eq!(parser.read_batch_into(XML, 10), 1);
    assert_eq!(parser.batch_parts().1, &[1]);
    assert_eq!(parser.read_batch_into(XML, 10), 0);
    assert!(parser.batch_parts().0.is_empty());
}

#[test]
fn malformed_rows_are_passed_over() {
    let xml = b"<Row A=1/><Row B=\"2\"/>";
    let mut parser = RowParser::new(xml, b"Row").unwrap();
    assert_eq!(parser.read_batch_into(xml, 10), 1);
    assert_eq!(parser.batch_parts().0, &[("B".to_string(), "2".to_string())]);
}

#[test]
fn bytes_that_are_no_text_are_refused() {
    assert!(matches!(RowParser::new(b"<Row A=\"\xff\"/>", b"Row"), Err(Error::Utf8)));
}
