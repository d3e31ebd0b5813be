use mukhidb::parser::parse;
use mukhidb::session::{admission, dump_admission, Admission, Session, TxnSlot};
use mukhidb::storage::Storage;
use mukhidb::types::{Column, DataType, Value};

#[test]
fn slot_admits_owner_only() {
    let mut g = TxnSlot::new();
    assert!(g.is_free());
    assert!(g.allows(1) && g.allows(2));
    g.claim(1);
    assert_eq!(g.owner(), Some(1));
    assert!(g.allows(1));
    assert!(!g.allows(2));
    g.release(2);
    assert_eq!(g.owner(), Some(1));
    g.release(1);
    assert!(g.is_free());
    assert!(g.allows(2));
}

#[test]
fn session_transaction_errors() {
    let mut storage = Storage::new();
    let mut slot = TxnSlot::new();
    let mut s = Session::new(7);
    assert_eq!(s.id(), 7);
    assert_eq!(s.commit(&mut storage, &mut slot), Err("No active transaction.".to_string()));
    assert_eq!(s.rollback(&mut storage, &mut slot), Err("No active transaction.".to_string()));
    assert!(slot.is_free());
    assert_eq!(s.begin(&mut storage, &mut slot), Ok(()));
    assert!(s.in_transaction());
    assert_eq!(slot.owner(), Some(7));
    assert_eq!(s.begin(&mut storage, &mut slot), Err("Already in a transaction.".to_string()));
    assert_eq!(slot.owner(), Some(7));
    assert_eq!(s.commit(&mut storage, &mut slot), Ok(()));
    assert!(!s.in_transaction());
    assert!(slot.is_free());
}

#[test]
fn disconnect_rolls_back() {
    let mut storage = Storage::new();
    let mut slot = TxnSlot::new();
    let mut s = Session::new(1);
    let cols = vec![Column { name: "id".into(), data_type: DataType::Integer }];
    s.create_table(&mut storage, "t".into(), cols, &[], &[]).unwrap();
    s.begin(&mut storage, &mut slot).unwrap();
    assert_eq!(slot.owner(), Some(1));
    s.insert(&mut storage, "t", vec![Value::Integer(1)]).unwrap();
    assert_eq!(s.select_all(&storage, "t").unwrap().1.len(), 1);
    s.disconnect(&mut storage, &mut slot);
    assert!(!s.in_transaction());
    assert!(slot.is_free());
    assert!(s.select_all(&storage, "t").unwrap().1.is_empty());
}

#[test]
fn storage_begin_twice() {
    let mut storage = Storage::new();
    storage
        .create_table("t".into(), vec![Column { name: "id".into(), data_type: DataType::Integer }], &[], &[])
        .unwrap();
    assert!(storage.begin().is_ok());
    assert!(storage.in_transaction());
    assert_eq!(storage.begin(), Err("Already in a transaction.".to_string()));
    assert!(storage.rollback().is_ok());
    assert!(!storage.in_transaction());
}

#[test]
fn statements_are_admitted_by_the_slot_protocol() {
    assert!(matches!(admission(&parse("BEGIN"), false), Admission::ClaimSlot));
    assert!(matches!(admission(&parse("BEGIN"), true), Admission::WaitThenWrite));
    assert!(matches!(admission(&parse("COMMIT"), true), Admission::Direct));
    assert!(matches!(admission(&parse("ROLLBACK"), false), Admission::Direct));
    assert!(matches!(admission(&parse("SELECT * FROM t"), false), Admission::WaitThenRead));
    assert!(matches!(admission(&parse("SELECT * FROM t"), true), Admission::WaitThenWrite));
    assert!(matches!(admission(&parse("INSERT INTO t VALUES (1)"), false), Admission::WaitThenWrite));
    assert!(matches!(dump_admission(false), Admission::WaitThenRead));
    assert!(matches!(dump_admission(true), Admission::WaitThenWrite));
}
