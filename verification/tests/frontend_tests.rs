use mukhidb::executor::ExecuteResult;
use mukhidb::frontend::{
    meta_command, render_table, request, response_message, table_of_file_name, tree_response, MetaCommand, Request,
};
use mukhidb::protocol::Message;

fn strings(v: &[&str]) -> Vec<String> {
    v.iter().map(|s| s.to_string()).collect()
}

#[test]
fn table_without_rows_prints_zero_rows() {
    assert_eq!(render_table(&strings(&["id"]), &vec![]), "(0 rows)\n");
}

#[test]
fn table_columns_are_aligned() {
    let headers = strings(&["id", "name"]);
    let rows = vec![strings(&["1", "alice"]), strings(&["22", "bo"])];
    let expected = "id | name \n---+------\n1  | alice\n22 | bo   \n(2 rows)\n";
    assert_eq!(render_table(&headers, &rows), expected);
}

#[test]
fn table_with_one_row_says_row() {
    let headers = strings(&["n"]);
    let rows = vec![strings(&["7"])];
    assert_eq!(render_table(&headers, &rows), "n\n-\n7\n(1 row)\n");
}

#[test]
fn cells_past_the_headers_keep_their_own_width() {
    let headers = strings(&["a"]);
    let rows = vec![strings(&["x", "yz"])];
    assert_eq!(render_table(&headers, &rows), "a\n-\nx | yz\n(1 row)\n");
}

#[test]
fn widths_count_bytes_and_padding_counts_characters() {
    let headers = strings(&["é"]);
    let rows = vec![strings(&["a"])];
    assert_eq!(render_table(&headers, &rows), "é \n--\na \n(1 row)\n");
}

#[test]
fn meta_commands_of_the_repl() {
    assert!(matches!(meta_command(".exit"), MetaCommand::Exit));
    assert!(matches!(meta_command(".quit"), MetaCommand::Exit));
    assert!(matches!(meta_command(".help"), MetaCommand::Help));
    assert!(matches!(meta_command(".btree"), MetaCommand::BtreeUsage));
    assert!(matches!(meta_command(".btree   "), MetaCommand::BtreeUsage));
    match meta_command(".btree  users ") {
        MetaCommand::Btree(t) => assert_eq!(t, "users"),
        _ => panic!("expected a tree request"),
    }
    assert!(matches!(meta_command(".foo"), MetaCommand::Unknown));
    assert!(matches!(meta_command(".EXIT"), MetaCommand::Unknown));
}

#[test]
fn server_tells_tree_requests_from_sql() {
    match request("  .btree  t1 ") {
        Request::Btree(t) => assert_eq!(t, "t1"),
        _ => panic!("expected a tree request"),
    }
    match request(" .btree") {
        Request::Sql(s) => assert_eq!(s, ".btree"),
        _ => panic!("expected SQL"),
    }
    match request("  SELECT * FROM t  ") {
        Request::Sql(s) => assert_eq!(s, "SELECT * FROM t"),
        _ => panic!("expected SQL"),
    }
}

#[test]
fn server_answers_results() {
    assert_eq!(
        response_message(ExecuteResult::Message("Error: Table 'x' not found".to_string())),
        Message::Error("Table 'x' not found".to_string())
    );
    assert_eq!(
        response_message(ExecuteResult::Message("Error:Error: twice".to_string())),
        Message::Error("twice".to_string())
    );
    assert_eq!(
        response_message(ExecuteResult::Message("Inserted 1 row.".to_string())),
        Message::Okay("Inserted 1 row.".to_string())
    );
    let headers = strings(&["id"]);
    let rows = vec![strings(&["1"])];
    assert_eq!(
        response_message(ExecuteResult::Rows { headers: headers.clone(), rows: rows.clone() }),
        Message::Rows { headers, rows }
    );
    assert_eq!(tree_response(Ok("tree".to_string())), Message::Okay("tree".to_string()));
    assert_eq!(tree_response(Err("no".to_string())), Message::Error("no".to_string()));
}

#[test]
fn table_files_name_their_tables() {
    assert_eq!(table_of_file_name("users.db"), Some("users".to_string()));
    assert_eq!(table_of_file_name("a.db.db"), Some("a".to_string()));
    assert_eq!(table_of_file_name(".db"), Some("".to_string()));
    assert_eq!(table_of_file_name("users.db.wal"), None);
    assert_eq!(table_of_file_name("db"), None);
}
