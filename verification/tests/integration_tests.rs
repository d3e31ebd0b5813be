use mukhidb::executor::{execute, ExecuteResult};
use mukhidb::parser::parse;
use mukhidb::session::{Session, TxnSlot};
use mukhidb::storage::Storage;
use mukhidb::wal::PAGE_SIZE;

/// A database run statement by statement, with its table files kept in
/// memory so that a restart can reopen them.
struct Db {
    storage: Storage,
    session: Session,
    slot: TxnSlot,
    files: Vec<(String, Vec<u8>)>,
}

impl Db {
    fn new() -> Db {
        Db { storage: Storage::new(), session: Session::new(1), slot: TxnSlot::new(), files: Vec::new() }
    }

    /// Runs one statement and renders its result as the REPL prints it.
    fn run(&mut self, sql: &str) -> String {
        let r = execute(parse(sql), &mut self.session, &mut self.storage, &mut self.slot, &[], &[]);
        self.write_back();
        match r {
            ExecuteResult::Message(m) => m + "\n",
            ExecuteResult::Rows { headers, rows } => render(&headers, &rows),
        }
    }

    fn script(&mut self, sql: &[&str]) -> String {
        sql.iter().map(|s| self.run(s)).collect()
    }

    /// Applies the committed pages to the table files.
    fn write_back(&mut self) {
        for (name, batches) in self.storage.take_pending() {
            let idx = match self.files.iter().position(|(n, _)| *n == name) {
                Some(i) => i,
                None => {
                    self.files.push((name.clone(), Vec::new()));
                    self.files.len() - 1
                }
            };
            let file = &mut self.files[idx].1;
            for batch in batches {
                for rec in batch.pages {
                    let off = rec.page_num as usize * PAGE_SIZE;
                    if file.len() < off + PAGE_SIZE {
                        file.resize(off + PAGE_SIZE, 0);
                    }
                    file[off..off + PAGE_SIZE].copy_from_slice(&rec.data);
                }
            }
        }
    }

    /// A fresh process: every table reopened from its file.
    fn restart(&mut self) {
        let mut storage = Storage::new();
        for (name, file) in &self.files {
            storage.open_table(name, file, &[]).unwrap();
        }
        self.storage = storage;
        self.session = Session::new(1);
        self.slot = TxnSlot::new();
    }
}

fn render(headers: &[String], rows: &[Vec<String>]) -> String {
    if rows.is_empty() {
        return "(0 rows)\n".to_string();
    }
    let mut widths: Vec<usize> = headers.iter().map(|h| h.len()).collect();
    for row in rows {
        for (i, cell) in row.iter().enumerate() {
            if i < widths.len() {
                widths[i] = widths[i].max(cell.len());
            }
        }
    }
    let line = |cells: &[String]| -> String {
        cells
            .iter()
            .enumerate()
            .map(|(i, c)| format!("{:<w$}", c, w = widths.get(i).copied().unwrap_or(c.len())))
            .collect::<Vec<_>>()
            .join(" | ")
    };
    let mut out = line(headers) + "\n";
    out += &(widths.iter().map(|w| "-".repeat(*w)).collect::<Vec<_>>().join("-+-") + "\n");
    for row in rows {
        out += &(line(row) + "\n");
    }
    out + &format!("({} row{})\n", rows.len(), if rows.len() == 1 { "" } else { "s" })
}

#[test]
fn sorted_output() {
    let mut db = Db::new();
    let out = db.script(&[
        "CREATE TABLE t (id INTEGER, name TEXT)",
        "INSERT INTO t VALUES (3, 'Charlie')",
        "INSERT INTO t VALUES (1, 'Alice')",
        "INSERT INTO t VALUES (2, 'Bob')",
        "SELECT * FROM t",
    ]);
    let alice_pos = out.find("Alice").unwrap();
    let bob_pos = out.find("Bob").unwrap();
    let charlie_pos = out.find("Charlie").unwrap();
    assert!(alice_pos < bob_pos);
    assert!(bob_pos < charlie_pos);
}

#[test]
fn duplicate_table_error() {
    let mut db = Db::new();
    let out = db.script(&["CREATE TABLE t (id INTEGER)", "CREATE TABLE t (id INTEGER)"]);
    assert!(out.contains("already exists"));
}

#[test]
fn where_eq_integer() {
    let mut db = Db::new();
    let out = db.script(&[
        "CREATE TABLE users (id INTEGER, name TEXT)",
        "INSERT INTO users VALUES (1, 'Alice')",
        "INSERT INTO users VALUES (2, 'Bob')",
        "INSERT INTO users VALUES (3, 'Charlie')",
        "SELECT * FROM users WHERE id = 2",
    ]);
    assert!(out.contains("Bob"));
    assert!(!out.contains("Alice"));
    assert!(!out.contains("Charlie"));
    assert!(out.contains("(1 row)"));
}

#[test]
fn where_gt() {
    let mut db = Db::new();
    let out = db.script(&[
        "CREATE TABLE t (id INTEGER, name TEXT)",
        "INSERT INTO t VALUES (1, 'A')",
        "INSERT INTO t VALUES (5, 'B')",
        "INSERT INTO t VALUES (10, 'C')",
        "SELECT * FROM t WHERE id > 3",
    ]);
    assert!(!out.contains("| A"));
    assert!(out.contains("B"));
    assert!(out.contains("C"));
    assert!(out.contains("(2 rows)"));
}

#[test]
fn where_lt() {
    let mut db = Db::new();
    let out = db.script(&[
        "CREATE TABLE t (id INTEGER, name TEXT)",
        "INSERT INTO t VALUES (1, 'A')",
        "INSERT INTO t VALUES (5, 'B')",
        "INSERT INTO t VALUES (10, 'C')",
        "SELECT * FROM t WHERE id < 5",
    ]);
    assert!(out.contains("A"));
    assert!(!out.contains("| B"));
    assert!(!out.contains("C"));
    assert!(out.contains("(1 row)"));
}

#[test]
fn where_no_match() {
    let mut db = Db::new();
    let out = db.script(&[
        "CREATE TABLE t (id INTEGER, name TEXT)",
        "INSERT INTO t VALUES (1, 'A')",
        "SELECT * FROM t WHERE id = 999",
    ]);
    assert!(out.contains("(0 rows)"));
}

#[test]
fn select_all_still_works() {
    let mut db = Db::new();
    let out = db.script(&[
        "CREATE TABLE t (id INTEGER, name TEXT)",
        "INSERT INTO t VALUES (1, 'A')",
        "INSERT INTO t VALUES (2, 'B')",
        "SELECT * FROM t",
    ]);
    assert!(out.contains("(2 rows)"));
}

#[test]
fn where_across_split() {
    let mut db = Db::new();
    db.run("CREATE TABLE t (id INTEGER, name TEXT)");
    for i in 1..=20 {
        db.run(&format!("INSERT INTO t VALUES ({}, 'user{}')", i, i));
    }
    let out = db.script(&[
        "SELECT * FROM t WHERE id = 1",
        "SELECT * FROM t WHERE id = 20",
        "SELECT * FROM t WHERE id > 15",
    ]);
    assert!(out.contains("user1"));
    assert!(out.contains("user20"));
    assert!(out.contains("(5 rows)"));
}

#[test]
fn many_rows_stress() {
    let mut db = Db::new();
    db.run("CREATE TABLE t (id INTEGER, name TEXT)");
    for i in 0..200 {
        db.run(&format!("INSERT INTO t VALUES ({}, 'row{}')", i, i));
    }
    let out = db.run("SELECT * FROM t");
    assert!(out.contains("(200 rows)"));
}

#[test]
fn transaction_commit() {
    let mut db = Db::new();
    let out = db.script(&[
        "CREATE TABLE t (id INTEGER, name TEXT)",
        "BEGIN",
        "INSERT INTO t VALUES (1, 'Alice')",
        "INSERT INTO t VALUES (2, 'Bob')",
        "COMMIT",
        "SELECT * FROM t",
    ]);
    assert!(out.contains("Transaction started."));
    assert!(out.contains("Transaction committed."));
    assert!(out.contains("Alice"));
    assert!(out.contains("Bob"));
    assert!(out.contains("(2 rows)"));
}

#[test]
fn transaction_rollback() {
    let mut db = Db::new();
    let out = db.script(&[
        "CREATE TABLE t (id INTEGER, name TEXT)",
        "INSERT INTO t VALUES (1, 'Alice')",
        "BEGIN",
        "INSERT INTO t VALUES (2, 'Bob')",
        "INSERT INTO t VALUES (3, 'Charlie')",
        "ROLLBACK",
        "SELECT * FROM t",
    ]);
    assert!(out.contains("Transaction rolled back."));
    assert!(out.contains("Alice"));
    assert!(!out.contains("Bob"));
    assert!(!out.contains("Charlie"));
    assert!(out.contains("(1 row)"));
}

#[test]
fn transaction_rollback_persists_prior_data() {
    let mut db = Db::new();
    db.script(&[
        "CREATE TABLE t (id INTEGER, name TEXT)",
        "INSERT INTO t VALUES (1, 'Kept')",
        "BEGIN",
        "INSERT INTO t VALUES (2, 'Gone')",
        "ROLLBACK",
    ]);
    db.restart();
    let out = db.run("SELECT * FROM t");
    assert!(out.contains("Kept"));
    assert!(!out.contains("Gone"));
    assert!(out.contains("(1 row)"));
}

#[test]
fn commit_persists_across_restart() {
    let mut db = Db::new();
    db.script(&["CREATE TABLE t (id INTEGER, name TEXT)", "BEGIN", "INSERT INTO t VALUES (1, 'Alice')", "COMMIT"]);
    db.restart();
    let out = db.run("SELECT * FROM t");
    assert!(out.contains("Alice"));
    assert!(out.contains("(1 row)"));
}

#[test]
fn double_begin_error() {
    let mut db = Db::new();
    let out = db.script(&["CREATE TABLE t (id INTEGER)", "BEGIN", "BEGIN"]);
    assert!(out.contains("Already in a transaction"));
}

#[test]
fn commit_without_begin_error() {
    let mut db = Db::new();
    let out = db.script(&["CREATE TABLE t (id INTEGER)", "COMMIT"]);
    assert!(out.contains("No active transaction"));
}

#[test]
fn rollback_without_begin_error() {
    let mut db = Db::new();
    let out = db.script(&["CREATE TABLE t (id INTEGER)", "ROLLBACK"]);
    assert!(out.contains("No active transaction"));
}

#[test]
fn mixed_length_texts() {
    let mut db = Db::new();
    let short = "Hi";
    let medium = "a]".repeat(50);
    let long = "z".repeat(300);
    db.run("CREATE TABLE t (id INTEGER, msg TEXT)");
    db.run(&format!("INSERT INTO t VALUES (1, '{}')", short));
    db.run(&format!("INSERT INTO t VALUES (2, '{}')", medium));
    db.run(&format!("INSERT INTO t VALUES (3, '{}')", long));
    let out = db.run("SELECT * FROM t");
    assert!(out.contains(short));
    assert!(out.contains(&medium));
    assert!(out.contains(&long));
    assert!(out.contains("(3 rows)"));
}

#[test]
fn long_text_persists_across_restart() {
    let mut db = Db::new();
    let long = "persistence_test_".repeat(30);
    db.run("CREATE TABLE t (id INTEGER, data TEXT)");
    db.run(&format!("INSERT INTO t VALUES (1, '{}')", long));
    db.restart();
    let out = db.run("SELECT * FROM t");
    assert!(out.contains(&long));
    assert!(out.contains("(1 row)"));
}

#[test]
fn many_rows_with_variable_text() {
    let mut db = Db::new();
    db.run("CREATE TABLE t (id INTEGER, name TEXT)");
    for i in 0..100 {
        let text = "a".repeat((i % 50) + 1);
        db.run(&format!("INSERT INTO t VALUES ({}, '{}')", i, text));
    }
    let out = db.run("SELECT * FROM t");
    assert!(out.contains("(100 rows)"));
}
