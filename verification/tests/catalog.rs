use todb::catalog::{
    arrow_type, build_record_batch, build_schema, column_values, version_value,
    yaml_cells_to_column, CatalogError, Cell, ColumnDef, ColumnType, VersionInfo, YamlCell,
};

fn col(name: &str, ty: &str, nullable: bool) -> ColumnDef {
    ColumnDef { name: name.to_string(), data_type: ty.to_string(), nullable }
}

#[test]
fn arrow_type_names_every_supported_type() {
    assert_eq!(arrow_type("UInt64").unwrap(), ColumnType::UInt64);
    assert_eq!(arrow_type("Int64").unwrap(), ColumnType::Int64);
    assert_eq!(arrow_type("Float64").unwrap(), ColumnType::Float64);
    assert_eq!(arrow_type("Utf8").unwrap(), ColumnType::Utf8);
    assert_eq!(arrow_type("Boolean").unwrap(), ColumnType::Boolean);
}

#[test]
fn arrow_type_refuses_unknown_names() {
    match arrow_type("Decimal") {
        Err(CatalogError::UnsupportedType(n)) => assert_eq!(n, "Decimal"),
        Ok(t) => panic!("unexpected type {:?}", t),
    }
    assert!(arrow_type("uint64").is_err());
    assert!(arrow_type("").is_err());
    assert!(arrow_type("UInt6").is_err());
}

#[test]
fn unsupported_type_message() {
    let e = arrow_type("Date32").unwrap_err();
    assert_eq!(e.message(), "unsupported type: Date32");
}

#[test]
fn schema_keeps_column_order_and_nullability() {
    let cols = vec![col("id", "UInt64", false), col("label", "Utf8", true)];
    let fields = build_schema(&cols).unwrap();
    assert_eq!(fields.len(), 2);
    assert_eq!(fields[0].name, "id");
    assert_eq!(fields[0].column_type, ColumnType::UInt64);
    assert!(!fields[0].nullable);
    assert_eq!(fields[1].name, "label");
    assert_eq!(fields[1].column_type, ColumnType::Utf8);
    assert!(fields[1].nullable);
}

#[test]
fn schema_reports_first_unsupported_column() {
    let cols = vec![col("a", "Int64", false), col("b", "Date", true), col("c", "Time", true)];
    match build_schema(&cols) {
        Err(CatalogError::UnsupportedType(n)) => assert_eq!(n, "Date"),
        Ok(_) => panic!("schema with an unsupported type was accepted"),
    }
}

#[test]
fn column_values_pads_short_rows() {
    let rows: Vec<Vec<u64>> = vec![vec![10, 1], vec![20], vec![30, 0]];
    assert_eq!(column_values(&rows, 0, &99), vec![10, 20, 30]);
    assert_eq!(column_values(&rows, 1, &99), vec![1, 99, 0]);
    assert_eq!(column_values(&rows, 5, &99), vec![99, 99, 99]);
}

#[test]
fn record_batch_lays_rows_out_by_column() {
    let cols = vec![col("val", "UInt64", false), col("flag", "Boolean", true)];
    let rows = vec![
        vec![serde_yaml::Value::from(10u64), serde_yaml::Value::Bool(true)],
        vec![serde_yaml::Value::from(20u64), serde_yaml::Value::Bool(false)],
        vec![serde_yaml::Value::from(30u64)],
    ];
    let batch = build_record_batch(&cols, &rows, &serde_yaml::Value::Null).unwrap();
    assert_eq!(batch.fields.len(), 2);
    assert_eq!(batch.columns.len(), 2);
    assert_eq!(batch.fields[0].name, "val");
    assert_eq!(batch.fields[1].name, "flag");
    assert_eq!(batch.columns[0].len(), 3);
    assert_eq!(batch.columns[0][2], serde_yaml::Value::from(30u64));
    assert_eq!(batch.columns[1][1], serde_yaml::Value::Bool(false));
    assert_eq!(batch.columns[1][2], serde_yaml::Value::Null);
}

#[test]
fn record_batch_with_no_rows_has_empty_columns() {
    let cols = vec![col("id", "Int64", false)];
    let rows: Vec<Vec<u64>> = Vec::new();
    let batch = build_record_batch(&cols, &rows, &0).unwrap();
    assert_eq!(batch.columns.len(), 1);
    assert!(batch.columns[0].is_empty());
}

#[test]
fn record_batch_refuses_unsupported_type() {
    let cols = vec![col("x", "Float32", false)];
    let rows: Vec<Vec<u64>> = vec![vec![1]];
    assert!(build_record_batch(&cols, &rows, &0).is_err());
}

#[test]
fn version_value_joins_commit_and_build_time() {
    let v = VersionInfo {
        commit_short: "abc1234".to_string(),
        build_time: "20260418215711".to_string(),
    };
    assert_eq!(version_value(&v), "abc1234-20260418215711");
}

fn cells() -> Vec<YamlCell> {
    vec![
        YamlCell::Null,
        YamlCell::Bool(true),
        YamlCell::Number(Some(7), Some(7)),
        YamlCell::Number(None, Some(-3)),
        YamlCell::Text("abc".to_string()),
        YamlCell::Other,
    ]
}

#[test]
fn unsigned_column_keeps_only_unsigned_numbers() {
    let r = yaml_cells_to_column(&cells(), ColumnType::UInt64);
    assert_eq!(r.len(), 6);
    assert!(matches!(r[2], Some(Cell::UInt64(7))));
    for i in [0, 1, 3, 4, 5] {
        assert!(r[i].is_none());
    }
}

#[test]
fn signed_column_keeps_signed_numbers() {
    let r = yaml_cells_to_column(&cells(), ColumnType::Int64);
    assert!(matches!(r[2], Some(Cell::Int64(7))));
    assert!(matches!(r[3], Some(Cell::Int64(-3))));
    for i in [0, 1, 4, 5] {
        assert!(r[i].is_none());
    }
}

#[test]
fn text_and_boolean_columns_keep_their_own_cells() {
    let t = yaml_cells_to_column(&cells(), ColumnType::Utf8);
    match &t[4] {
        Some(Cell::Utf8(s)) => assert_eq!(s, "abc"),
        other => panic!("unexpected {:?}", other),
    }
    assert_eq!(t.iter().filter(|c| c.is_some()).count(), 1);
    let b = yaml_cells_to_column(&cells(), ColumnType::Boolean);
    assert!(matches!(b[1], Some(Cell::Boolean(true))));
    assert_eq!(b.iter().filter(|c| c.is_some()).count(), 1);
}

#[test]
fn no_cells_make_an_empty_column() {
    assert!(yaml_cells_to_column(&vec![], ColumnType::Boolean).is_empty());
}
