use mukhidb::executor::{evaluate, execute, find_col_index, ExecuteResult};
use mukhidb::frontend::render_table;
use mukhidb::parser::parse;
use mukhidb::session::{Session, TxnSlot};
use mukhidb::storage::Storage;
use mukhidb::types::{CompOp, Expr, Row, Value};

struct Db {
    storage: Storage,
    session: Session,
    slot: TxnSlot,
}

impl Db {
    fn new() -> Db {
        Db { storage: Storage::new(), session: Session::new(1), slot: TxnSlot::new() }
    }
    fn run(&mut self, sql: &str) -> ExecuteResult {
        execute(parse(sql), &mut self.session, &mut self.storage, &mut self.slot, &[], &[])
    }
    fn msg(&mut self, sql: &str) -> String {
        match self.run(sql) {
            ExecuteResult::Message(m) => m,
            ExecuteResult::Rows { .. } => panic!("expected a message for {}", sql),
        }
    }
    fn rows(&mut self, sql: &str) -> (Vec<String>, Vec<Vec<String>>) {
        match self.run(sql) {
            ExecuteResult::Rows { headers, rows } => (headers, rows),
            ExecuteResult::Message(m) => panic!("expected rows for {}, got {}", sql, m),
        }
    }
}

fn strs(v: &[&str]) -> Vec<String> {
    v.iter().map(|s| s.to_string()).collect()
}

#[test]
fn create_insert_select() {
    let mut db = Db::new();
    assert_eq!(db.msg("CREATE TABLE users (id INTEGER, name TEXT)"), "Table 'users' created.");
    assert_eq!(db.msg("INSERT INTO users VALUES (2, 'Bob')"), "1 row inserted.");
    assert_eq!(db.msg("INSERT INTO users VALUES (1, 'Alice')"), "1 row inserted.");
    let (h, r) = db.rows("SELECT * FROM users");
    assert_eq!(h, strs(&["id", "name"]));
    assert_eq!(r, vec![strs(&["1", "Alice"]), strs(&["2", "Bob"])]);
}

#[test]
fn errors_are_reported() {
    let mut db = Db::new();
    db.msg("CREATE TABLE t (id INTEGER, name TEXT)");
    assert_eq!(db.msg("CREATE TABLE t (id INTEGER)"), "Error: Table 't' already exists.");
    assert_eq!(db.msg("INSERT INTO nope VALUES (1)"), "Error: Table 'nope' not found.");
    assert_eq!(db.msg("INSERT INTO t VALUES (1)"), "Error: Expected 2 values, got 1.");
    assert_eq!(
        db.msg("INSERT INTO t VALUES ('x', 'y')"),
        "Error: Column 'id' (position 0) expects Integer, got Text(\"x\")."
    );
    assert_eq!(
        db.msg("INSERT INTO t VALUES (1, 2)"),
        "Error: Column 'name' (position 1) expects Text, got Integer(2)."
    );
    assert_eq!(db.msg("SELECT * FROM nope"), "Error: Table 'nope' not found.");
    assert_eq!(db.msg("DROP TABLE t"), "Unrecognised command: 'DROP TABLE t'");
}

#[test]
fn row_too_large_is_rejected() {
    let mut db = Db::new();
    db.msg("CREATE TABLE t (id INTEGER, body TEXT)");
    let big = "y".repeat(3000);
    assert_eq!(
        db.msg(&format!("INSERT INTO t VALUES (1, '{}')", big)),
        "Error: Row too large (3012 bytes). Maximum row size is 2030 bytes."
    );
    let ok = "z".repeat(2016);
    assert_eq!(db.msg(&format!("INSERT INTO t VALUES (2, '{}')", ok)), "1 row inserted.");
}

#[test]
fn where_filters() {
    let mut db = Db::new();
    db.msg("CREATE TABLE t (id INTEGER, name TEXT)");
    for (i, n) in [(1, "A"), (2, "B"), (3, "C")] {
        db.msg(&format!("INSERT INTO t VALUES ({}, '{}')", i, n));
    }
    assert_eq!(db.rows("SELECT * FROM t WHERE id = 2").1, vec![strs(&["2", "B"])]);
    assert_eq!(db.rows("SELECT * FROM t WHERE id > 1").1.len(), 2);
    assert_eq!(db.rows("SELECT * FROM t WHERE id < 2").1, vec![strs(&["1", "A"])]);
    assert_eq!(db.rows("SELECT * FROM t WHERE name > 'A'").1.len(), 2);
    assert_eq!(db.rows("SELECT * FROM t WHERE NAME = 'C'").1, vec![strs(&["3", "C"])]);
    assert!(db.rows("SELECT * FROM t WHERE id = 99").1.is_empty());
    assert!(db.rows("SELECT * FROM t WHERE missing = 1").1.is_empty());
    assert!(db.rows("SELECT * FROM t WHERE id = 'x'").1.is_empty());
}

#[test]
fn join_basic() {
    let mut db = Db::new();
    db.msg("CREATE TABLE users (id INTEGER, name TEXT)");
    db.msg("CREATE TABLE orders (user_id INTEGER, item TEXT)");
    db.msg("INSERT INTO users VALUES (1, 'Alice')");
    db.msg("INSERT INTO users VALUES (2, 'Bob')");
    db.msg("INSERT INTO orders VALUES (1, 'apple')");
    db.msg("INSERT INTO orders VALUES (1, 'pear')");
    db.msg("INSERT INTO orders VALUES (2, 'fig')");
    let (h, r) = db.rows("SELECT * FROM users JOIN orders ON users.id = orders.user_id");
    assert_eq!(h, strs(&["users.id", "users.name", "orders.user_id", "orders.item"]));
    assert_eq!(r.len(), 3);
    assert_eq!(r[2], strs(&["2", "Bob", "2", "fig"]));
    let (_, r) = db.rows("SELECT * FROM users JOIN orders ON id = user_id WHERE orders.item = 'fig'");
    assert_eq!(r, vec![strs(&["2", "Bob", "2", "fig"])]);
    // After a join the columns carry their table's name.
    assert!(db.rows("SELECT * FROM users JOIN orders ON id = user_id WHERE item = 'fig'").1.is_empty());
    assert_eq!(
        db.msg("SELECT * FROM users JOIN orders ON users.nope = orders.user_id"),
        "Error: JOIN column not found."
    );
    assert_eq!(db.msg("SELECT * FROM users JOIN nope ON id = id"), "Error: Table 'nope' not found.");
}

#[test]
fn transactions() {
    let mut db = Db::new();
    db.msg("CREATE TABLE t (id INTEGER, name TEXT)");
    assert_eq!(db.msg("COMMIT"), "Error: No active transaction.");
    assert_eq!(db.msg("ROLLBACK"), "Error: No active transaction.");
    assert_eq!(db.msg("BEGIN"), "Transaction started.");
    assert_eq!(db.msg("BEGIN"), "Error: Already in a transaction.");
    db.msg("INSERT INTO t VALUES (1, 'Kept')");
    assert_eq!(db.msg("COMMIT"), "Transaction committed.");
    assert_eq!(db.msg("BEGIN"), "Transaction started.");
    db.msg("INSERT INTO t VALUES (2, 'Gone')");
    assert_eq!(db.rows("SELECT * FROM t").1.len(), 2);
    assert_eq!(db.msg("ROLLBACK"), "Transaction rolled back.");
    assert_eq!(db.rows("SELECT * FROM t").1, vec![strs(&["1", "Kept"])]);
}

#[test]
fn rollback_restores_root_after_split() {
    let mut db = Db::new();
    db.msg("CREATE TABLE t (id INTEGER, name TEXT)");
    db.msg("INSERT INTO t VALUES (0, 'first')");
    db.msg("BEGIN");
    for i in 1..300 {
        db.msg(&format!("INSERT INTO t VALUES ({}, 'row{}')", i, i));
    }
    assert_eq!(db.rows("SELECT * FROM t").1.len(), 300);
    db.msg("ROLLBACK");
    assert_eq!(db.rows("SELECT * FROM t").1, vec![strs(&["0", "first"])]);
}

#[test]
fn many_rows_sorted() {
    let mut db = Db::new();
    db.msg("CREATE TABLE t (id INTEGER, name TEXT)");
    for i in (0..200).rev() {
        assert_eq!(db.msg(&format!("INSERT INTO t VALUES ({}, 'row{}')", i, i)), "1 row inserted.");
    }
    let (_, r) = db.rows("SELECT * FROM t");
    assert_eq!(r.len(), 200);
    for (i, row) in r.iter().enumerate() {
        assert_eq!(row[0], i.to_string());
    }
}

#[test]
fn dump_btree_through_storage() {
    let mut db = Db::new();
    db.msg("CREATE TABLE t (id INTEGER)");
    db.msg("INSERT INTO t VALUES (1)");
    db.msg("INSERT INTO t VALUES (2)");
    let text = db.storage.dump_btree("t").unwrap();
    assert!(text.contains("Leaf"));
    assert!(text.contains("key 1"));
    assert!(text.contains("key 2"));
    assert_eq!(db.storage.dump_btree("x"), Err("Table 'x' not found.".to_string()));
}

#[test]
fn evaluate_conditions() {
    let headers = strs(&["Id", "name"]);
    let row = Row { values: vec![Value::Integer(5), Value::Text("abc".into())] };
    let e = |c: &str, op: CompOp, v: Value| Expr { column: c.into(), op, value: v };
    assert!(evaluate(&e("id", CompOp::Eq, Value::Integer(5)), &row, &headers));
    assert!(evaluate(&e("ID", CompOp::Gt, Value::Integer(4)), &row, &headers));
    assert!(!evaluate(&e("id", CompOp::Lt, Value::Integer(5)), &row, &headers));
    assert!(evaluate(&e("name", CompOp::Lt, Value::Text("abd".into())), &row, &headers));
    assert!(evaluate(&e("name", CompOp::Gt, Value::Text("ab".into())), &row, &headers));
    assert!(!evaluate(&e("name", CompOp::Eq, Value::Integer(1)), &row, &headers));
    assert!(!evaluate(&e("other", CompOp::Eq, Value::Integer(5)), &row, &headers));
}

#[test]
fn column_lookup() {
    let headers = strs(&["id", "Name"]);
    assert_eq!(find_col_index(&headers, "t", "name"), Some(1));
    assert_eq!(find_col_index(&headers, "t", "t.ID"), Some(0));
    assert_eq!(find_col_index(&headers, "t", "a.b.id"), None);
    assert_eq!(find_col_index(&headers, "t", "zzz"), None);
}

fn join_tables(db: &mut Db) {
    db.msg("CREATE TABLE users (id INTEGER, name TEXT)");
    db.msg("CREATE TABLE orders (id INTEGER, user_id INTEGER)");
    db.msg("INSERT INTO users VALUES (1, 'Alice')");
    db.msg("INSERT INTO users VALUES (2, 'Bob')");
    db.msg("INSERT INTO orders VALUES (10, 1)");
    db.msg("INSERT INTO orders VALUES (20, 2)");
}

#[test]
fn join_with_where() {
    let mut db = Db::new();
    join_tables(&mut db);
    let (_, r) = db.rows("SELECT * FROM users JOIN orders ON users.id = orders.user_id WHERE users.name = 'Alice'");
    assert_eq!(r, vec![strs(&["1", "Alice", "10", "1"])]);
}

#[test]
fn join_no_match() {
    let mut db = Db::new();
    db.msg("CREATE TABLE a (id INTEGER, val TEXT)");
    db.msg("CREATE TABLE b (id INTEGER, a_id INTEGER)");
    db.msg("INSERT INTO a VALUES (1, 'x')");
    db.msg("INSERT INTO b VALUES (10, 999)");
    assert!(db.rows("SELECT * FROM a JOIN b ON a.id = b.a_id").1.is_empty());
}

#[test]
fn join_bare_column_names() {
    let mut db = Db::new();
    db.msg("CREATE TABLE users (id INTEGER, name TEXT)");
    db.msg("CREATE TABLE orders (id INTEGER, user_id INTEGER)");
    db.msg("INSERT INTO users VALUES (1, 'Alice')");
    db.msg("INSERT INTO orders VALUES (10, 1)");
    let (h, r) = db.rows("SELECT * FROM users JOIN orders ON id = user_id");
    let out = render_table(&h, &r);
    assert!(out.contains("Alice"));
    assert!(out.contains("(1 row)"));
}

#[test]
fn type_mismatch_error() {
    let mut db = Db::new();
    db.msg("CREATE TABLE t (id INTEGER, name TEXT)");
    assert!(db.msg("INSERT INTO t VALUES ('abc', 'x')").starts_with("Error:"));
}

#[test]
fn where_eq_text() {
    let mut db = Db::new();
    join_tables(&mut db);
    assert_eq!(db.rows("SELECT * FROM users WHERE name = 'Alice'").1, vec![strs(&["1", "Alice"])]);
}

#[test]
fn long_text_value() {
    let mut db = Db::new();
    db.msg("CREATE TABLE t (id INTEGER, body TEXT)");
    let body = "a".repeat(500);
    assert_eq!(db.msg(&format!("INSERT INTO t VALUES (1, '{}')", body)), "1 row inserted.");
    assert_eq!(db.rows("SELECT * FROM t").1, vec![vec!["1".to_string(), body]]);
}
