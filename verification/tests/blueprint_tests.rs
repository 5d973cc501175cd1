use ocpq::blueprint::{
    build_column_index, ChangeTableCondition, IndexedRow, InlineObjectReference, MultiValueConfig,
    ObjectTypeSpec, RowValue, TableUsageData, TimestampFormat, TimestampSource, ValueExpression,
};

fn cols(names: &[&str]) -> Vec<String> {
    names.iter().map(|n| n.to_string()).collect()
}

#[test]
fn test_value_expression_column() {
    let expr = ValueExpression::Column { column: "name".to_string() };
    let col_index = build_column_index(&cols(&["name", "age"]));
    let values = vec![RowValue::Text("Alice".to_string()), RowValue::Integer(30)];
    let row = IndexedRow { values: &values, index: &col_index };
    assert_eq!(expr.evaluate(&row), Some("Alice".to_string()));
}

#[test]
fn test_value_expression_template() {
    let expr = ValueExpression::Template { template: "ORD-{id}-{region}".to_string() };
    let col_index = build_column_index(&cols(&["id", "region"]));
    let values = vec![RowValue::Text("123".to_string()), RowValue::Text("EU".to_string())];
    let row = IndexedRow { values: &values, index: &col_index };
    assert_eq!(expr.evaluate(&row), Some("ORD-123-EU".to_string()));
}

#[test]
fn test_timestamp_parsing() {
    let ts = TimestampSource::Column {
        column: "time".to_string(),
        format: TimestampFormat::Auto,
    };
    let col_index = build_column_index(&cols(&["time"]));
    let values = vec![RowValue::Text("2024-01-15 10:30:00".to_string())];
    let row = IndexedRow { values: &values, index: &col_index };
    assert!(ts.parse(&row).is_some());
}

#[test]
fn test_timestamp_components_iso_datetimes() {
    let ts = TimestampSource::Components {
        date_column: Some("udate".to_string()),
        time_column: Some("utime".to_string()),
    };
    let col_index = build_column_index(&cols(&["udate", "utime"]));
    let values = vec![
        RowValue::Text("2015-01-06T00:00:00".to_string()),
        RowValue::Text("1970-01-01T15:02:03".to_string()),
    ];
    let row = IndexedRow { values: &values, index: &col_index };
    let parsed = ts.parse(&row);
    assert!(parsed.is_some(), "should parse ISO datetime components");
    let dt = chrono::DateTime::from_timestamp_millis(parsed.unwrap()).unwrap();
    assert_eq!(dt.format("%Y-%m-%d %H:%M:%S").to_string(), "2015-01-06 15:02:03");
}

#[test]
fn test_timestamp_components_plain() {
    let ts = TimestampSource::Components {
        date_column: Some("d".to_string()),
        time_column: Some("t".to_string()),
    };
    let col_index = build_column_index(&cols(&["d", "t"]));
    let values = vec![
        RowValue::Text("2024-03-15".to_string()),
        RowValue::Text("09:30:00".to_string()),
    ];
    let row = IndexedRow { values: &values, index: &col_index };
    let parsed = ts.parse(&row);
    assert!(parsed.is_some(), "should parse plain date + time components");
    let dt = chrono::DateTime::from_timestamp_millis(parsed.unwrap()).unwrap();
    assert_eq!(dt.format("%Y-%m-%d %H:%M:%S").to_string(), "2024-03-15 09:30:00");
}

#[test]
fn test_condition_prepare_and_evaluate() {
    let cond = ChangeTableCondition::ColumnEquals {
        column: "status".to_string(),
        value: "active".to_string(),
    };
    let prepared = cond.prepare().unwrap();
    let col_index = build_column_index(&cols(&["status"]));
    let values = vec![RowValue::Text("active".to_string())];
    let row = IndexedRow { values: &values, index: &col_index };
    assert!(prepared.evaluate(&row));
}

#[test]
fn test_condition_regex() {
    let cond = ChangeTableCondition::ColumnMatches {
        column: "code".to_string(),
        regex: r"^ORD-\d+$".to_string(),
    };
    let prepared = cond.prepare().unwrap();
    let col_index = build_column_index(&cols(&["code"]));

    let values_match = vec![RowValue::Text("ORD-123".to_string())];
    let row = IndexedRow { values: &values_match, index: &col_index };
    assert!(prepared.evaluate(&row));

    let values_no_match = vec![RowValue::Text("INV-456".to_string())];
    let row = IndexedRow { values: &values_no_match, index: &col_index };
    assert!(!prepared.evaluate(&row));
}

#[test]
fn test_required_columns() {
    let usage = TableUsageData::SingleEvent {
        event_type: "Order".to_string(),
        id: ValueExpression::Template { template: "EVT-{order_id}".to_string() },
        timestamp: TimestampSource::Column {
            column: "created_at".to_string(),
            format: TimestampFormat::Auto,
        },
        inline_object_references: Vec::new(),
    };
    let required = usage.required_columns();
    assert!(required.iter().any(|c| c == "order_id"));
    assert!(required.iter().any(|c| c == "created_at"));
}

#[test]
fn test_inline_object_reference_multi_value() {
    let inline_ref = InlineObjectReference {
        id: "test".to_string(),
        object_id: ValueExpression::Column { column: "objects".to_string() },
        object_type: None,
        qualifier: None,
        multi_value_config: Some(MultiValueConfig {
            enabled: true,
            delimiter: ",".to_string(),
            trim_values: true,
        }),
    };
    let col_index = build_column_index(&cols(&["objects"]));
    let values = vec![RowValue::Text("obj1, obj2, obj3".to_string())];
    let row = IndexedRow { values: &values, index: &col_index };
    let ids = inline_ref.extract_object_ids(&row);
    assert_eq!(ids, vec!["obj1", "obj2", "obj3"]);
}

#[test]
fn test_object_type_spec_fixed_empty() {
    let spec = ObjectTypeSpec::Fixed(String::new());
    let col_index = build_column_index(&cols(&[]));
    let values: Vec<RowValue> = Vec::new();
    let row = IndexedRow { values: &values, index: &col_index };
    assert_eq!(spec.evaluate(&row), None);
}

#[test]
fn test_unix_timestamp_formats() {
    let col_index = build_column_index(&cols(&["ts"]));
    let values = vec![RowValue::Text("1700000000".to_string())];
    let row = IndexedRow { values: &values, index: &col_index };
    let secs = TimestampSource::Column {
        column: "ts".to_string(),
        format: TimestampFormat::UnixSeconds,
    };
    assert_eq!(secs.parse(&row), Some(1_700_000_000_000));
    let millis = TimestampSource::Column {
        column: "ts".to_string(),
        format: TimestampFormat::UnixMillis,
    };
    assert_eq!(millis.parse(&row), Some(1_700_000_000));
}
