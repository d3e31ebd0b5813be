use mukhidb::row::{deserialize, row_decodes, row_size_wide, serialize, serialized_size};
use mukhidb::types::{Column, DataType, Row, Value};

#[test]
fn round_trip() {
    let cols = vec![
        Column { name: "id".into(), data_type: DataType::Integer },
        Column { name: "name".into(), data_type: DataType::Text },
    ];
    let row = Row {
        values: vec![Value::Integer(42), Value::Text("Alice".into())],
    };
    let size = serialized_size(&row, &cols);
    assert_eq!(size, 8 + 4 + 5); // i64 + len_prefix + "Alice"
    let mut buf = vec![0u8; size];
    serialize(&row, &cols, &mut buf);
    let out = deserialize(&buf, &cols);
    assert_eq!(out.values[0], Value::Integer(42));
    assert_eq!(out.values[1], Value::Text("Alice".into()));
}

#[test]
fn variable_sizes() {
    let cols = vec![
        Column { name: "id".into(), data_type: DataType::Integer },
        Column { name: "bio".into(), data_type: DataType::Text },
    ];
    // Short text
    let short = Row {
        values: vec![Value::Integer(1), Value::Text("Hi".into())],
    };
    assert_eq!(serialized_size(&short, &cols), 8 + 4 + 2);

    // Long text
    let long_text = "x".repeat(1000);
    let long = Row {
        values: vec![Value::Integer(2), Value::Text(long_text.clone())],
    };
    assert_eq!(serialized_size(&long, &cols), 8 + 4 + 1000);

    // Round-trip both
    for row in [&short, &long] {
        let size = serialized_size(row, &cols);
        let mut buf = vec![0u8; size];
        serialize(row, &cols, &mut buf);
        let out = deserialize(&buf, &cols);
        assert_eq!(out.values, row.values);
    }
}

#[test]
fn empty_text() {
    let cols = vec![
        Column { name: "id".into(), data_type: DataType::Integer },
        Column { name: "name".into(), data_type: DataType::Text },
    ];
    let row = Row {
        values: vec![Value::Integer(1), Value::Text(String::new())],
    };
    let size = serialized_size(&row, &cols);
    assert_eq!(size, 8 + 4); // i64 + len_prefix(0)
    let mut buf = vec![0u8; size];
    serialize(&row, &cols, &mut buf);
    let out = deserialize(&buf, &cols);
    assert_eq!(out.values[1], Value::Text(String::new()));
}

#[test]
fn exact_encoding_bytes() {
    let cols = vec![
        Column { name: "id".into(), data_type: DataType::Integer },
        Column { name: "name".into(), data_type: DataType::Text },
    ];
    let row = Row { values: vec![Value::Integer(-2), Value::Text("ab".into())] };
    let mut buf = vec![0u8; 14];
    serialize(&row, &cols, &mut buf);
    assert_eq!(
        buf,
        vec![0xFE, 0xFF, 0xFF, 0xFF, 0xFF, 0xFF, 0xFF, 0xFF, 2, 0, 0, 0, b'a', b'b']
    );
}

#[test]
fn mismatched_values_are_stored_as_zero_and_empty() {
    let cols = vec![
        Column { name: "id".into(), data_type: DataType::Integer },
        Column { name: "name".into(), data_type: DataType::Text },
    ];
    let row = Row { values: vec![Value::Text("oops".into()), Value::Null] };
    assert_eq!(serialized_size(&row, &cols), 12);
    let mut buf = vec![7u8; 12];
    serialize(&row, &cols, &mut buf);
    assert_eq!(buf, vec![0u8; 12]);
    let out = deserialize(&buf, &cols);
    assert_eq!(out.values, vec![Value::Integer(0), Value::Text(String::new())]);
}

#[test]
fn unicode_text_round_trip() {
    let cols = vec![Column { name: "t".into(), data_type: DataType::Text }];
    let row = Row { values: vec![Value::Text("日本語".into())] };
    let size = serialized_size(&row, &cols);
    assert_eq!(size, 4 + 9);
    let mut buf = vec![0u8; size];
    serialize(&row, &cols, &mut buf);
    assert_eq!(deserialize(&buf, &cols).values, row.values);
}

#[test]
fn wide_size_matches_serialized_size() {
    let cols = vec![
        Column { name: "id".into(), data_type: DataType::Integer },
        Column { name: "bio".into(), data_type: DataType::Text },
    ];
    let row = Row { values: vec![Value::Integer(9), Value::Text("x".repeat(300))] };
    assert_eq!(row_size_wide(&row, &cols), 8 + 4 + 300);
    assert_eq!(row_size_wide(&row, &cols) as usize, serialized_size(&row, &cols));
}

#[test]
fn truncated_rows_do_not_decode() {
    let cols = vec![
        Column { name: "id".into(), data_type: DataType::Integer },
        Column { name: "name".into(), data_type: DataType::Text },
    ];
    let row = Row { values: vec![Value::Integer(1), Value::Text("Bob".into())] };
    let mut buf = vec![0u8; 15];
    serialize(&row, &cols, &mut buf);
    assert!(row_decodes(&buf, &cols));
    assert!(!row_decodes(&buf[..14], &cols));
    assert!(!row_decodes(&buf[..7], &cols));
    assert!(row_decodes(&[], &[]));
}
