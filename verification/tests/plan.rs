use crxml::error::{Error, ErrorClass};
use crxml::input::{auto_mmap, row_capacity};
use crxml::names::{NameMap, NameSet};
use crxml::numbers::{int_text, size_text};
use crxml::plan::{
    build_plan_from_kwargs, BuildPlan, CompareOp, FieldType, FilterPredicate, PlanError,
};

fn pairs(list: &[(&str, &str)]) -> Option<Vec<(String, String)>> {
    Some(list.iter().map(|(a, b)| (a.to_string(), b.to_string())).collect())
}

fn names(list: &[&str]) -> Option<Vec<String>> {
    Some(list.iter().map(|a| a.to_string()).collect())
}

fn filter_of(list: &[(&str, &str)]) -> Result<BuildPlan, PlanError> {
    build_plan_from_kwargs(None, None, pairs(list), None, None, None, false)
}

#[test]
fn types_by_name() {
    assert_eq!(FieldType::from_str("string"), Some(FieldType::String));
    assert_eq!(FieldType::from_str("int64"), Some(FieldType::Int64));
    assert_eq!(FieldType::from_str("float64"), Some(FieldType::Float64));
    assert_eq!(FieldType::from_str("bool"), Some(FieldType::Boolean));
    assert_eq!(FieldType::from_str("decimal"), None);
}

#[test]
fn comparisons_by_name() {
    let all = [
        (">", CompareOp::Gt, "greater"),
        ("<", CompareOp::Lt, "less"),
        (">=", CompareOp::Ge, "greater_equal"),
        ("<=", CompareOp::Le, "less_equal"),
        ("==", CompareOp::Eq, "equal"),
        ("!=", CompareOp::Ne, "not_equal"),
    ];
    for (name, op, function) in all {
        assert_eq!(CompareOp::from_str(name), Some(op));
        assert_eq!(op.compute_fn(), function);
    }
    assert_eq!(CompareOp::from_str("=>"), None);
}

#[test]
fn plan_with_everything() {
    let plan = build_plan_from_kwargs(
        pairs(&[("A", "B")]),
        names(&["C"]),
        pairs(&[("op", "eq"), ("field", "D"), ("value", "1")]),
        pairs(&[("E", "int64")]),
        names(&["F"]),
        names(&["E", "B"]),
        true,
    )
    .ok()
    .unwrap();
    assert_eq!(plan.resolve_field("A"), Some("B"));
    assert_eq!(plan.resolve_field("C"), None);
    assert_eq!(plan.column_type("E"), FieldType::Int64);
    assert_eq!(plan.column_type("F"), FieldType::Dictionary);
    assert_eq!(plan.column_type("B"), FieldType::String);
    assert_eq!(plan.schema_order, vec!["E".to_string(), "B".to_string()]);
    assert!(plan.auto_dict);
    assert!(matches!(plan.filter, Some(FilterPredicate::Equal { .. })));
}

#[test]
fn empty_plan_changes_nothing() {
    let plan = build_plan_from_kwargs(None, None, None, None, None, None, false).ok().unwrap();
    assert_eq!(plan.resolve_field("A"), Some("A"));
    assert!(plan.filter.is_none());
}

#[test]
fn filters_by_operator() {
    for op in ["!=", "ne"] {
        let plan = filter_of(&[("op", op), ("field", "A"), ("value", "1")]).ok().unwrap();
        assert!(matches!(plan.filter, Some(FilterPredicate::NotEqual { .. })));
    }
    for op in ["==", "eq"] {
        let plan = filter_of(&[("op", op), ("field", "A"), ("value", "1")]).ok().unwrap();
        assert!(matches!(plan.filter, Some(FilterPredicate::Equal { .. })));
    }
    let plan = filter_of(&[("op", "<"), ("field_a", "A"), ("field_b", "B")]).ok().unwrap();
    assert!(matches!(plan.filter, Some(FilterPredicate::Compare { op: CompareOp::Lt, .. })));
}

#[test]
fn plans_that_are_refused() {
    match build_plan_from_kwargs(None, None, None, pairs(&[("A", "date")]), None, None, false) {
        Err(PlanError::UnknownFieldType { field, declared }) => {
            assert_eq!((field.as_str(), declared.as_str()), ("A", "date"));
        }
        _ => panic!("expected an unknown type"),
    }
    assert!(matches!(filter_of(&[("field", "A"), ("value", "1")]), Err(PlanError::MissingOp)));
    assert!(matches!(filter_of(&[("op", "=="), ("value", "1")]), Err(PlanError::MissingField)));
    assert!(matches!(filter_of(&[("op", "=="), ("field", "A")]), Err(PlanError::MissingValue)));
    assert!(matches!(
        filter_of(&[("op", "~"), ("field_a", "A"), ("field_b", "B")]),
        Err(PlanError::UnsupportedCompareOp { .. })
    ));
    assert!(matches!(
        filter_of(&[("op", "<"), ("field", "A"), ("value", "1")]),
        Err(PlanError::UnsupportedFilterOp { .. })
    ));
}

#[test]
fn failures_as_callers_see_them() {
    let report = |e: Error| e.report();
    assert_eq!(
        report(Error::Utf8),
        (
            ErrorClass::Xml,
            "Columnar parse error: invalid UTF-8: invalid utf-8 sequence".to_string()
        )
    );
    assert_eq!(
        report(Error::Plan("XML parse error at 3".to_string())),
        (ErrorClass::Xml, "Columnar parse error: XML parse error at 3".to_string())
    );
    assert_eq!(
        report(Error::Plan("invalid UTF-8 here".to_string())),
        (ErrorClass::Xml, "Columnar parse error: invalid UTF-8 here".to_string())
    );
    assert_eq!(
        report(Error::Plan("no XML parse error".to_string())),
        (ErrorClass::Plan, "no XML parse error".to_string())
    );
    assert_eq!(report(Error::Merge("m".to_string())), (ErrorClass::Merge, "m".to_string()));
    assert_eq!(report(Error::Io("i".to_string())), (ErrorClass::Io, "i".to_string()));
    assert_eq!(
        report(Error::Arrow("a".to_string())),
        (ErrorClass::Other, "Arrow error: a".to_string())
    );
}

#[test]
fn large_plain_files_are_mapped() {
    let limit = 50 * 1024 * 1024;
    assert!(auto_mmap(true, None, &[]));
    assert!(!auto_mmap(false, None, b"<R>"));
    assert!(!auto_mmap(false, Some(limit), b"<R>"));
    assert!(auto_mmap(false, Some(limit + 1), b"<R>"));
    assert!(auto_mmap(false, Some(limit + 1), b""));
    assert!(!auto_mmap(false, Some(limit + 1), &[0x1f, 0x8b]));
    assert!(!auto_mmap(false, Some(limit + 1), &[0x28, 0xb5, 0x2f, 0xfd]));
    assert!(!auto_mmap(false, Some(limit + 1), &[0x04, 0x22, 0x4d, 0x18]));
    assert!(auto_mmap(false, Some(limit + 1), &[0x28, 0xb5, 0x2f]));
}

#[test]
fn room_for_rows() {
    assert_eq!(row_capacity(0, 0), 64);
    assert_eq!(row_capacity(512 * 100, 1), 100);
    assert_eq!(row_capacity(1_000_000, 1000), 1000);
}

#[test]
fn numbers_as_text() {
    assert_eq!(int_text(0), "0");
    assert_eq!(int_text(-1205), "-1205");
    assert_eq!(int_text(i64::MIN), "-9223372036854775808");
    assert_eq!(int_text(i64::MAX), "9223372036854775807");
    assert_eq!(size_text(1_048_576), "1048576");
}

#[test]
fn names_are_listed() {
    let mut map = NameMap::new();
    map.insert("A".to_string(), 1);
    map.insert("B".to_string(), 2);
    map.insert("A".to_string(), 3);
    let entries: std::collections::HashMap<String, i32> = map.entries().iter().cloned().collect();
    assert_eq!(entries.len(), 2);
    assert_eq!((entries["A"], entries["B"]), (3, 2));
    let mut set = NameSet::new();
    assert!(set.names().is_empty());
    set.insert("A".to_string());
    assert_eq!(set.names(), &["A".to_string()]);
}
