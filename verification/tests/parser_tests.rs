use mukhidb::parser::{parse, parse_is_defined, Statement};
use mukhidb::types::{Column, CompOp, DataType, Expr, JoinClause, Value};

fn col(name: &str, t: DataType) -> Column {
    Column { name: name.to_string(), data_type: t }
}

#[test]
fn create_table() {
    assert_eq!(
        parse("CREATE TABLE users (id INTEGER, name TEXT)"),
        Statement::CreateTable {
            table_name: "users".into(),
            columns: vec![col("id", DataType::Integer), col("name", DataType::Text)],
        }
    );
}

#[test]
fn create_table_skips_bad_columns_and_ignores_case() {
    assert_eq!(
        parse("  create table t ( a integer , b blob, c , d Text )  "),
        Statement::CreateTable {
            table_name: "t".into(),
            columns: vec![col("a", DataType::Integer), col("d", DataType::Text)],
        }
    );
    assert_eq!(
        parse("CREATE TABLE t"),
        Statement::CreateTable { table_name: "t".into(), columns: vec![] }
    );
}

#[test]
fn insert_values() {
    assert_eq!(
        parse("INSERT INTO users VALUES (1, 'Alice')"),
        Statement::Insert {
            table_name: "users".into(),
            values: vec![Value::Integer(1), Value::Text("Alice".into())],
        }
    );
    assert_eq!(
        parse("insert into t values (-9223372036854775808, \"q\", +7, 9223372036854775808, x)"),
        Statement::Insert {
            table_name: "t".into(),
            values: vec![
                Value::Integer(i64::MIN),
                Value::Text("q".into()),
                Value::Integer(7),
                Value::Text("9223372036854775808".into()),
                Value::Text("x".into()),
            ],
        }
    );
    assert_eq!(
        parse("INSERT INTO t VALUES ()"),
        Statement::Insert { table_name: "t".into(), values: vec![Value::Text(String::new())] }
    );
}

#[test]
fn select_forms() {
    assert_eq!(
        parse("SELECT * FROM users"),
        Statement::Select { table_name: "users".into(), join: None, where_clause: None }
    );
    assert_eq!(
        parse("select * from users where id = 2"),
        Statement::Select {
            table_name: "users".into(),
            join: None,
            where_clause: Some(Expr { column: "id".into(), op: CompOp::Eq, value: Value::Integer(2) }),
        }
    );
    assert_eq!(
        parse("SELECT * FROM t WHERE name > 'B'"),
        Statement::Select {
            table_name: "t".into(),
            join: None,
            where_clause: Some(Expr { column: "name".into(), op: CompOp::Gt, value: Value::Text("B".into()) }),
        }
    );
    assert_eq!(
        parse("SELECT * FROM t WHERE id < 10"),
        Statement::Select {
            table_name: "t".into(),
            join: None,
            where_clause: Some(Expr { column: "id".into(), op: CompOp::Lt, value: Value::Integer(10) }),
        }
    );
    assert_eq!(
        parse("SELECT * FROM t WHERE nothing"),
        Statement::Select { table_name: "t".into(), join: None, where_clause: None }
    );
}

#[test]
fn select_join() {
    assert_eq!(
        parse("SELECT * FROM users JOIN orders ON users.id = orders.user_id WHERE orders.amount > 10"),
        Statement::Select {
            table_name: "users".into(),
            join: Some(JoinClause {
                right_table: "orders".into(),
                left_col: "users.id".into(),
                right_col: "orders.user_id".into(),
            }),
            where_clause: Some(Expr {
                column: "orders.amount".into(),
                op: CompOp::Gt,
                value: Value::Integer(10),
            }),
        }
    );
    assert_eq!(
        parse("SELECT * FROM a JOIN b ON x = y"),
        Statement::Select {
            table_name: "a".into(),
            join: Some(JoinClause { right_table: "b".into(), left_col: "x".into(), right_col: "y".into() }),
            where_clause: None,
        }
    );
}

#[test]
fn join_without_equals_takes_no_table_name() {
    assert_eq!(
        parse("SELECT * FROM a JOIN b ON x"),
        Statement::Select { table_name: String::new(), join: None, where_clause: None }
    );
}

#[test]
fn transaction_keywords() {
    assert_eq!(parse("BEGIN"), Statement::Begin);
    assert_eq!(parse(" commit "), Statement::Commit);
    assert_eq!(parse("Rollback"), Statement::Rollback);
    assert_eq!(parse("BEGIN WORK"), Statement::Unknown("BEGIN WORK".into()));
}

#[test]
fn unknown_statement_is_trimmed() {
    assert_eq!(parse("  DROP TABLE t \n"), Statement::Unknown("DROP TABLE t".into()));
    assert_eq!(parse(""), Statement::Unknown(String::new()));
}

#[test]
fn select_without_from_is_not_parsed() {
    assert!(!parse_is_defined("SELECT 1"));
    assert!(parse_is_defined("SELECT * FROM t"));
    assert!(parse_is_defined("DELETE"));
}
