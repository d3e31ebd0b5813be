use mukhidb::storage::{extract_key, read_metadata, schema_fits, write_metadata, Storage};
use mukhidb::pager::Pager;
use mukhidb::types::{Column, DataType, Value};
use mukhidb::wal::PAGE_SIZE;

fn cols() -> Vec<Column> {
    vec![
        Column { name: "id".into(), data_type: DataType::Integer },
        Column { name: "name".into(), data_type: DataType::Text },
    ]
}

/// The `.db` file image after applying a table's queued commits.
fn file_of(batches: Vec<mukhidb::pager::CommitBatch>, file: &mut Vec<u8>) {
    for batch in batches {
        for rec in batch.pages {
            let off = rec.page_num as usize * PAGE_SIZE;
            if file.len() < off + PAGE_SIZE {
                file.resize(off + PAGE_SIZE, 0);
            }
            file[off..off + PAGE_SIZE].copy_from_slice(&rec.data);
        }
    }
}

#[test]
fn metadata_page_layout() {
    let mut s = Storage::new();
    s.create_table("people".into(), cols(), &[], &[]).unwrap();
    let pending = s.take_pending();
    assert_eq!(pending.len(), 1);
    assert_eq!(pending[0].0, "people");
    let mut file = Vec::new();
    file_of(pending.into_iter().next().unwrap().1, &mut file);
    assert_eq!(file.len(), 2 * PAGE_SIZE);
    // root page 1, two columns, "id" integer, "name" text
    assert_eq!(&file[0..4], &1u32.to_le_bytes());
    assert_eq!(&file[4..8], &2u32.to_le_bytes());
    assert_eq!(&file[8..14], &[2, 0, b'i', b'd', 0, 4]);
    assert_eq!(&file[14..19], &[0, b'n', b'a', b'm', b'e']);
    assert_eq!(file[19], 1);
}

#[test]
fn persistence_across_restarts() {
    let mut s = Storage::new();
    s.create_table("people".into(), cols(), &[], &[]).unwrap();
    s.insert("people", vec![Value::Integer(1), Value::Text("Persist".into())]).unwrap();
    let mut file = Vec::new();
    for (_, batches) in s.take_pending() {
        file_of(batches, &mut file);
    }
    let mut s2 = Storage::new();
    s2.open_table("people", &file, &[]).unwrap();
    let (headers, rows) = s2.select_all("people").unwrap();
    assert_eq!(headers, vec!["id".to_string(), "name".to_string()]);
    assert_eq!(rows.len(), 1);
    assert_eq!(rows[0].values, vec![Value::Integer(1), Value::Text("Persist".into())]);
}

#[test]
fn open_table_rejects_bad_metadata() {
    let mut file = vec![0u8; PAGE_SIZE];
    file[4] = 1; // one column
    file[8] = 1; // name length 1
    file[10] = b'x';
    file[11] = 9; // unknown type tag
    let mut s = Storage::new();
    assert_eq!(s.open_table("t", &file, &[]), Err("Unknown type tag 9 in metadata".to_string()));
    assert!(s.select_all("t").is_err());
    assert!(s.open_table("t", &[1, 2, 3], &[]).is_err());
}

#[test]
fn extract_key_uses_first_integer_column() {
    let c = vec![
        Column { name: "a".into(), data_type: DataType::Text },
        Column { name: "b".into(), data_type: DataType::Integer },
        Column { name: "c".into(), data_type: DataType::Integer },
    ];
    let v = vec![Value::Text("x".into()), Value::Integer(7), Value::Integer(9)];
    assert_eq!(extract_key(&c, &v), Ok(7));
    let t = vec![Column { name: "a".into(), data_type: DataType::Text }];
    assert_eq!(extract_key(&t, &[Value::Text("x".into())]), Ok(0));
}

#[test]
fn schema_size_limit() {
    assert!(schema_fits(&cols()));
    let many: Vec<Column> = (0..2000)
        .map(|i| Column { name: format!("c{}", i), data_type: DataType::Integer })
        .collect();
    assert!(!schema_fits(&many));
}

#[test]
fn created_table_selects_no_rows() {
    let mut s = Storage::new();
    s.create_table("people".into(), cols(), &[], &[]).unwrap();
    let (headers, rows) = s.select_all("people").unwrap();
    assert_eq!(headers, vec!["id".to_string(), "name".to_string()]);
    assert!(rows.is_empty());
}

#[test]
fn every_inserted_row_is_read_back() {
    let mut s = Storage::new();
    s.create_table("people".into(), cols(), &[], &[]).unwrap();
    // Enough rows, in shuffled key order, to split leaves and internal nodes.
    let mut keys: Vec<i64> = (0..1200).map(|i| (i * 7919) % 1200).collect();
    keys.push(5); // a duplicate key
    for (n, k) in keys.iter().enumerate() {
        s.insert("people", vec![Value::Integer(*k), Value::Text(format!("row-{}-{}", k, n))]).unwrap();
        if n % 100 == 0 {
            let (_, rows) = s.select_all("people").unwrap();
            assert_eq!(rows.len(), n + 1);
        }
    }
    let (_, rows) = s.select_all("people").unwrap();
    let mut expected: Vec<(i64, String)> =
        keys.iter().enumerate().map(|(n, k)| (*k, format!("row-{}-{}", k, n))).collect();
    let mut got: Vec<(i64, String)> = rows
        .iter()
        .map(|r| match (&r.values[0], &r.values[1]) {
            (Value::Integer(k), Value::Text(t)) => (*k, t.clone()),
            _ => panic!("unexpected row shape"),
        })
        .collect();
    // Scans come out in key order.
    assert!(got.windows(2).all(|w| w[0].0 <= w[1].0));
    expected.sort();
    got.sort();
    assert_eq!(got, expected);
}

#[test]
fn begin_and_commit_keep_rows() {
    let mut s = Storage::new();
    s.create_table("people".into(), cols(), &[], &[]).unwrap();
    s.insert("people", vec![Value::Integer(1), Value::Text("a".into())]).unwrap();
    let values = |rows: Vec<mukhidb::types::Row>| rows.into_iter().map(|r| r.values).collect::<Vec<_>>();
    let before = values(s.select_all("people").unwrap().1);
    s.begin().unwrap();
    assert_eq!(values(s.select_all("people").unwrap().1), before);
    s.insert("people", vec![Value::Integer(2), Value::Text("b".into())]).unwrap();
    s.commit().unwrap();
    let after = s.select_all("people").unwrap().1;
    assert_eq!(after.len(), 2);
    assert_eq!(after[0].values, vec![Value::Integer(1), Value::Text("a".into())]);
    assert_eq!(after[1].values, vec![Value::Integer(2), Value::Text("b".into())]);
}

#[test]
fn rollback_restores_rows_after_root_split() {
    let mut s = Storage::new();
    s.create_table("people".into(), cols(), &[], &[]).unwrap();
    s.insert("people", vec![Value::Integer(1), Value::Text("kept".into())]).unwrap();
    s.begin().unwrap();
    // Enough rows to split the root leaf, so the root page changes.
    for i in 2..400 {
        s.insert("people", vec![Value::Integer(i), Value::Text(format!("gone-{:0>40}", i))]).unwrap();
    }
    assert_eq!(s.select_all("people").unwrap().1.len(), 399);
    s.rollback().unwrap();
    let (_, rows) = s.select_all("people").unwrap();
    assert_eq!(rows.len(), 1);
    assert_eq!(rows[0].values, vec![Value::Integer(1), Value::Text("kept".into())]);
}

#[test]
fn select_reads_rows_in_key_order() {
    let mut s = Storage::new();
    s.create_table("people".into(), cols(), &[], &[]).unwrap();
    for i in 0..500i64 {
        let k = (i * 389) % 500;
        s.insert("people", vec![Value::Integer(k), Value::Text("x".repeat((k % 90) as usize))]).unwrap();
    }
    let (_, rows) = s.select_all("people").unwrap();
    let ks: Vec<i64> = rows
        .iter()
        .map(|r| match r.values[0] {
            Value::Integer(k) => k,
            _ => panic!("unexpected key column"),
        })
        .collect();
    assert_eq!(ks, (0..500).collect::<Vec<i64>>());
}

#[test]
fn metadata_reads_back_what_was_written() {
    let mut p = Pager::new();
    let cols = vec![
        Column { name: "id".into(), data_type: DataType::Integer },
        Column { name: "name".into(), data_type: DataType::Text },
    ];
    write_metadata(&mut p, 7, &cols).unwrap();
    let page = p.read_page(0).unwrap();
    let (root, back) = read_metadata(&page).unwrap();
    assert_eq!(root, 7);
    assert_eq!(back.len(), 2);
    assert_eq!(back[0].name, "id");
    assert!(matches!(back[0].data_type, DataType::Integer));
    assert_eq!(back[1].name, "name");
    assert!(matches!(back[1].data_type, DataType::Text));
}
