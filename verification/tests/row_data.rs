use todb::row_data::{RowData, RowValue};

fn roundtrip(v: &RowValue, tp: RowValue) -> RowValue {
    RowValue::decode(&v.encode(), tp).unwrap()
}

#[test]
fn encodes_each_kind() {
    assert!(RowValue::Null.encode().is_empty());
    assert_eq!(RowValue::Bool(true).encode(), vec![1]);
    assert_eq!(RowValue::Bool(false).encode(), vec![0]);
    assert_eq!(RowValue::Int64(-2).encode(), vec![0xff, 0xff, 0xff, 0xff, 0xff, 0xff, 0xff, 0xfe]);
    assert_eq!(RowValue::Int64(258).encode(), vec![0, 0, 0, 0, 0, 0, 1, 2]);
    assert_eq!(RowValue::Float64(1.5f64.to_bits()).encode(), 1.5f64.to_be_bytes().to_vec());
    assert_eq!(RowValue::String("héllo".to_string()).encode(), "héllo".as_bytes().to_vec());
    assert_eq!(RowValue::Bytes(vec![9, 8, 7]).encode(), vec![9, 8, 7]);
}

#[test]
fn decodes_what_encode_wrote() {
    match roundtrip(&RowValue::Int64(i64::MIN), RowValue::Int64(0)) {
        RowValue::Int64(i) => assert_eq!(i, i64::MIN),
        _ => panic!("wrong kind"),
    }
    match roundtrip(&RowValue::Float64((-0.25f64).to_bits()), RowValue::Float64(0)) {
        RowValue::Float64(bits) => assert_eq!(f64::from_bits(bits), -0.25),
        _ => panic!("wrong kind"),
    }
    match roundtrip(&RowValue::Bool(true), RowValue::Bool(false)) {
        RowValue::Bool(b) => assert!(b),
        _ => panic!("wrong kind"),
    }
    match roundtrip(&RowValue::String("naïve ☃".to_string()), RowValue::String(String::new())) {
        RowValue::String(s) => assert_eq!(s, "naïve ☃"),
        _ => panic!("wrong kind"),
    }
    match roundtrip(&RowValue::Bytes(vec![0, 255]), RowValue::Bytes(vec![])) {
        RowValue::Bytes(b) => assert_eq!(b, vec![0, 255]),
        _ => panic!("wrong kind"),
    }
    assert!(matches!(roundtrip(&RowValue::Null, RowValue::Null), RowValue::Null));
}

#[test]
fn decode_reads_only_the_leading_bytes_of_fixed_width_values() {
    match RowValue::decode(&[0, 0, 0, 0, 0, 0, 0, 7, 99], RowValue::Int64(0)).unwrap() {
        RowValue::Int64(i) => assert_eq!(i, 7),
        _ => panic!("wrong kind"),
    }
    match RowValue::decode(&[2], RowValue::Bool(true)).unwrap() {
        RowValue::Bool(b) => assert!(!b),
        _ => panic!("wrong kind"),
    }
}

#[test]
fn invalid_utf8_is_replaced() {
    match RowValue::decode(&[b'a', 0xff, b'b'], RowValue::String(String::new())).unwrap() {
        RowValue::String(s) => assert_eq!(s, "a\u{FFFD}b"),
        _ => panic!("wrong kind"),
    }
}

#[test]
fn row_holds_values_in_column_order() {
    let row = RowData { values: vec![RowValue::Int64(1), RowValue::Null] };
    assert_eq!(row.values.len(), 2);
    assert!(matches!(row.values[1], RowValue::Null));
}
