//! Executes parsed statements against the storage: WHERE filtering, nested
//! loop joins and the text of each result.
use vstd::prelude::*;
use crate::parser::{join_model, where_model, Statement, StatementModel};
use crate::protocol::{strings_model, table_model};
use crate::row::{decode_row, lemma_decode_len};
use crate::session::{already_msg, no_txn_msg, slot_released, Session, SessionModel, TxnSlot};
use crate::storage::{
    any_in_transaction, began, committed, create_outcome, decoded_rows, each_table, has_table, insert_outcome,
    metadata_fits, not_found_msg, rolled_back, rows_values, select_result, table_of, Storage, TableModel,
};
use crate::text::{
    chars_of, eq_ignore_ascii_case, int_string, int_text, str_eq_ignore_ascii_case, str_lt, text_lt,
};
use crate::types::{CompOp, Expr, ExprModel, JoinClause, JoinModel, Row, Value, ValueModel};

verus! {

/// The result of executing a statement — either a message or a table of rows.
pub enum ExecuteResult {
    Message(String),
    Rows { headers: Vec<String>, rows: Vec<Vec<String>> },
}

/// The model of a result.
pub enum ResultModel {
    Message(Seq<char>),
    Rows { headers: Seq<Seq<char>>, rows: Seq<Seq<Seq<char>>> },
}

impl View for ExecuteResult {
    type V = ResultModel;

    open spec fn view(&self) -> ResultModel {
        match self {
            ExecuteResult::Message(m) => ResultModel::Message(m@),
            ExecuteResult::Rows { headers, rows } => ResultModel::Rows {
                headers: strings_model(headers@),
                rows: table_model(rows@),
            },
        }
    }
}

/// "Error: " followed by the reason.
pub open spec fn error_text(e: Seq<char>) -> Seq<char> {
    "Error: "@ + e
}

/// Whether a result is an error message.
pub open spec fn is_error(r: ResultModel) -> bool {
    r matches ResultModel::Message(m) && m.len() >= 7 && m.take(7) == "Error: "@
}

/// The text a value is shown as.
pub open spec fn value_text(v: ValueModel) -> Seq<char> {
    match v {
        ValueModel::Integer(n) => int_text(n as int),
        ValueModel::Text(s) => s,
        ValueModel::Null => "NULL"@,
    }
}

/// The texts of a row's values.
pub open spec fn row_texts(row: Seq<ValueModel>) -> Seq<Seq<char>> {
    row.map_values(|v: ValueModel| value_text(v))
}

/// The texts of rows.
pub open spec fn rows_texts(rows: Seq<Seq<ValueModel>>) -> Seq<Seq<Seq<char>>> {
    rows.map_values(|r: Seq<ValueModel>| row_texts(r))
}

/// The first header, from position `i` on, equal to `name` up to ASCII case.
pub open spec fn find_header(headers: Seq<Seq<char>>, name: Seq<char>, i: nat) -> Option<nat>
    decreases headers.len() - i,
{
    if i >= headers.len() {
        None
    } else if eq_ignore_ascii_case(headers[i as int], name) {
        Some(i)
    } else {
        find_header(headers, name, i + 1)
    }
}

/// What comparing a cell with a condition's value gives.
pub open spec fn compare_values(op: CompOp, a: ValueModel, b: ValueModel) -> bool {
    match (a, b) {
        (ValueModel::Integer(x), ValueModel::Integer(y)) => match op {
            CompOp::Eq => x == y,
            CompOp::Lt => x < y,
            CompOp::Gt => x > y,
        },
        (ValueModel::Text(x), ValueModel::Text(y)) => match op {
            CompOp::Eq => x == y,
            CompOp::Lt => text_lt(x, y),
            CompOp::Gt => text_lt(y, x),
        },
        _ => false,
    }
}

/// Whether a row meets a WHERE condition: the named column (found without
/// regard to ASCII case) compares as asked with the value; an unknown column
/// or a type mismatch never matches.
pub open spec fn eval(e: ExprModel, row: Seq<ValueModel>, headers: Seq<Seq<char>>) -> bool {
    match find_header(headers, e.column, 0) {
        None => false,
        Some(i) => compare_values(e.op, row[i as int], e.value),
    }
}

/// Whether a row is kept by an optional WHERE condition.
pub open spec fn keeps(w: Option<ExprModel>, row: Seq<ValueModel>, headers: Seq<Seq<char>>) -> bool {
    match w {
        None => true,
        Some(e) => eval(e, row, headers),
    }
}

/// The rows kept by an optional WHERE condition, in order.
pub open spec fn filter_rows(rows: Seq<Seq<ValueModel>>, w: Option<ExprModel>, headers: Seq<Seq<char>>) -> Seq<Seq<ValueModel>>
    decreases rows.len(),
{
    if rows.len() == 0 {
        Seq::empty()
    } else {
        let rest = filter_rows(rows.drop_last(), w, headers);
        if keeps(w, rows.last(), headers) {
            rest.push(rows.last())
        } else {
            rest
        }
    }
}

/// What `SELECT * FROM t [WHERE ...]` gives on table `t`: `None` where the
/// tree cannot be read.
pub open spec fn select_output(t: TableModel, w: Option<ExprModel>) -> Option<ResultModel> {
    match select_result(t) {
        Ok((headers, rows)) => Some(
            ResultModel::Rows { headers, rows: rows_texts(filter_rows(rows, w, headers)) },
        ),
        Err(Some(msg)) => Some(ResultModel::Message(error_text(msg))),
        Err(None) => None,
    }
}

/// Whether a result is what `out` says (any error message where it says
/// nothing).
pub open spec fn result_is(r: ResultModel, out: Option<ResultModel>) -> bool {
    match out {
        Some(o) => r == o,
        None => is_error(r),
    }
}

/// The position of the first header equal to `name` up to ASCII case.
fn find_header_index(headers: &Vec<String>, name: &str) -> (r: Option<usize>)
    ensures
        match r {
            Some(i) => find_header(strings_model(headers@), name@, 0) == Some(i as nat) && i < headers@.len(),
            None => find_header(strings_model(headers@), name@, 0) is None,
        },
{
    let ghost hs = strings_model(headers@);
    let mut i: usize = 0;
    while i < headers.len()
        invariant
            i <= headers@.len(),
            hs == strings_model(headers@),
            find_header(hs, name@, 0) == find_header(hs, name@, i as nat),
        decreases headers@.len() - i,
    {
        assert(hs[i as int] == headers@[i as int]@);
        if str_eq_ignore_ascii_case(headers[i].as_str(), name) {
            return Some(i);
        }
        i = i + 1;
    }
    None
}

/// Evaluate a WHERE expression against a single row.
pub fn evaluate(expr: &Expr, row: &Row, headers: &Vec<String>) -> (b: bool)
    requires
        headers@.len() <= row.values@.len(),
    ensures
        b == eval(expr@, row@, strings_model(headers@)),
{
    let ghost hs = strings_model(headers@);
    let idx = match find_header_index(headers, expr.column.as_str()) {
        Some(k) => k,
        None => return false,
    };
    assert(find_header(hs, expr.column@, 0) == Some(idx as nat));
    assert(row@[idx as int] == row.values@[idx as int]@);
    let cell = &row.values[idx];
    match (&expr.op, cell, &expr.value) {
        (CompOp::Eq, Value::Integer(a), Value::Integer(b)) => *a == *b,
        (CompOp::Lt, Value::Integer(a), Value::Integer(b)) => *a < *b,
        (CompOp::Gt, Value::Integer(a), Value::Integer(b)) => *a > *b,
        (CompOp::Eq, Value::Text(a), Value::Text(b)) => a.eq(b),
        (CompOp::Lt, Value::Text(a), Value::Text(b)) => str_lt(a.as_str(), b.as_str()),
        (CompOp::Gt, Value::Text(a), Value::Text(b)) => str_lt(b.as_str(), a.as_str()),
        _ => false,
    }
}

/// The text a value is shown as.
pub fn display_value(v: &Value) -> (s: String)
    ensures
        s@ == value_text(v@),
{
    match v {
        Value::Integer(n) => int_string(*n),
        Value::Text(t) => t.clone(),
        Value::Null => String::from_str("NULL"),
    }
}

fn display_row(row: &Row) -> (out: Vec<String>)
    ensures
        strings_model(out@) == row_texts(row@),
{
    let mut out: Vec<String> = Vec::new();
    let mut i: usize = 0;
    while i < row.values.len()
        invariant
            i <= row.values@.len(),
            out@.len() == i,
            forall|k: int| 0 <= k < i ==> #[trigger] out@[k]@ == value_text(row.values@[k]@),
        decreases row.values@.len() - i,
    {
        out.push(display_value(&row.values[i]));
        i = i + 1;
    }
    assert(strings_model(out@) =~= row_texts(row@));
    out
}

/// The rows kept by the condition, shown as text.
fn filter_and_show(rows: &Vec<Row>, where_clause: &Option<Expr>, headers: &Vec<String>) -> (out: Vec<Vec<String>>)
    requires
        forall|k: int| 0 <= k < rows@.len() ==> headers@.len() <= (#[trigger] rows@[k]).values@.len(),
    ensures
        table_model(out@) == rows_texts(filter_rows(rows_values(rows@), where_model(*where_clause), strings_model(headers@))),
{
    let ghost hs = strings_model(headers@);
    let ghost w = where_model(*where_clause);
    let ghost all = rows_values(rows@);
    let mut out: Vec<Vec<String>> = Vec::new();
    let mut i: usize = 0;
    assert(table_model(out@) =~= rows_texts(filter_rows(all.take(0), w, hs)));
    while i < rows.len()
        invariant
            i <= rows@.len(),
            hs == strings_model(headers@),
            w == where_model(*where_clause),
            all == rows_values(rows@),
            forall|k: int| 0 <= k < rows@.len() ==> headers@.len() <= (#[trigger] rows@[k]).values@.len(),
            table_model(out@) == rows_texts(filter_rows(all.take(i as int), w, hs)),
        decreases rows@.len() - i,
    {
        let keep = match where_clause {
            Some(e) => evaluate(e, &rows[i], headers),
            None => true,
        };
        let ghost prev = table_model(out@);
        proof {
            let t = all.take(i + 1);
            assert(t.drop_last() =~= all.take(i as int));
            assert(t.last() == rows@[i as int]@);
            assert(keep == keeps(w, t.last(), hs));
        }
        if keep {
            let shown = display_row(&rows[i]);
            out.push(shown);
            proof {
                assert(table_model(out@) =~= prev.push(strings_model(shown@)));
                let f = filter_rows(all.take(i as int), w, hs);
                assert(rows_texts(f.push(rows@[i as int]@)) =~= rows_texts(f).push(row_texts(rows@[i as int]@)));
            }
        }
        i = i + 1;
    }
    assert(all.take(rows@.len() as int) =~= all);
    out
}

/// `SELECT * FROM table [WHERE ...]`.
pub fn execute_select(table_name: &str, where_clause: &Option<Expr>, session: &Session, storage: &Storage) -> (r: ExecuteResult)
    requires
        storage.wf(),
    ensures
        !has_table(storage@, table_name@) ==> r@ == ResultModel::Message(error_text(not_found_msg(table_name@))),
        has_table(storage@, table_name@) ==> result_is(r@, select_output(table_of(storage@, table_name@), where_model(*where_clause))),
{
    match session.select_all(storage, table_name) {
        Ok((headers, rows)) => {
            proof {
                let t = table_of(storage@, table_name@);
                lemma_rows_width(t, strings_model(headers@), rows_values(rows@));
                assert forall|k: int| 0 <= k < rows@.len() implies headers@.len() <= (#[trigger] rows@[k]).values@.len() by {
                    assert(rows_values(rows@)[k] == rows@[k]@);
                }
            }
            let shown = filter_and_show(&rows, where_clause, &headers);
            ExecuteResult::Rows { headers, rows: shown }
        },
        Err(msg) => {
            proof {
                lemma_error_text(msg@);
            }
            ExecuteResult::Message(error_string(msg.as_str()))
        },
    }
}

/// An error text starts with "Error: ".
proof fn lemma_error_text(e: Seq<char>)
    ensures
        is_error(ResultModel::Message(error_text(e))),
{
    reveal_strlit("Error: ");
    assert(error_text(e).take(7) =~= "Error: "@);
}

/// "Error: " followed by the reason.
fn error_string(msg: &str) -> (s: String)
    ensures
        s@ == error_text(msg@),
{
    let mut s = String::from_str("Error: ");
    s.append(msg);
    s
}

/// Every row a table selects has one value per column.
proof fn lemma_rows_width(t: TableModel, headers: Seq<Seq<char>>, rows: Seq<Seq<ValueModel>>)
    requires
        select_result(t) == Ok::<(Seq<Seq<char>>, Seq<Seq<ValueModel>>), Option<Seq<char>>>((headers, rows)),
    ensures
        headers.len() == t.columns.len(),
        forall|k: int| 0 <= k < rows.len() ==> (#[trigger] rows[k]).len() == t.columns.len(),
{
    let raws = crate::btree::scan_rows(t.pager, t.root_page as int).unwrap();
    assert forall|k: int| 0 <= k < rows.len() implies (#[trigger] rows[k]).len() == t.columns.len() by {
        assert(decode_row(raws[k], t.columns) is Some);
        lemma_decode_len(raws[k], t.columns, t.columns.len());
        assert(rows[k] == decoded_rows(raws, t.columns)[k]);
    }
}

} // verus!

verus! {

/// The first position, from `i` on, holding character `c`.
pub open spec fn first_index(s: Seq<char>, c: char, i: nat) -> Option<nat>
    decreases s.len() - i,
{
    if i >= s.len() {
        None
    } else if s[i as int] == c {
        Some(i)
    } else {
        first_index(s, c, i + 1)
    }
}

/// The column part of a column reference: what follows the first '.', or
/// the whole reference.
pub open spec fn column_part(col_ref: Seq<char>) -> Seq<char> {
    match first_index(col_ref, '.', 0) {
        Some(d) => col_ref.skip(d + 1 as int),
        None => col_ref,
    }
}

/// The headers of one side of a join, each prefixed with its table name.
pub open spec fn prefixed(table: Seq<char>, headers: Seq<Seq<char>>) -> Seq<Seq<char>> {
    headers.map_values(|h: Seq<char>| table + "."@ + h)
}

/// The left row joined with each right row whose join column equals its own.
pub open spec fn matches_of(l: Seq<ValueModel>, rs: Seq<Seq<ValueModel>>, li: int, ri: int) -> Seq<Seq<ValueModel>>
    decreases rs.len(),
{
    if rs.len() == 0 {
        Seq::empty()
    } else {
        let rest = matches_of(l, rs.drop_last(), li, ri);
        if l[li] == rs.last()[ri] {
            rest.push(l + rs.last())
        } else {
            rest
        }
    }
}

/// The nested loop join: for each left row in order, the matching right rows
/// in order.
pub open spec fn join_rows(ls: Seq<Seq<ValueModel>>, rs: Seq<Seq<ValueModel>>, li: int, ri: int) -> Seq<Seq<ValueModel>>
    decreases ls.len(),
{
    if ls.len() == 0 {
        Seq::empty()
    } else {
        join_rows(ls.drop_last(), rs, li, ri) + matches_of(ls.last(), rs, li, ri)
    }
}

pub open spec fn join_col_msg() -> Seq<char> {
    "Error: JOIN column not found."@
}

/// What `SELECT * FROM left JOIN right ON lc = rc [WHERE ...]` gives on
/// storage `m`: `None` where a tree cannot be read.
pub open spec fn join_output(m: Seq<(Seq<char>, TableModel)>, left: Seq<char>, jc: JoinModel, w: Option<ExprModel>) -> Option<ResultModel> {
    if !has_table(m, left) {
        Some(ResultModel::Message(error_text(not_found_msg(left))))
    } else {
        match select_result(table_of(m, left)) {
            Err(None) => None,
            Err(Some(msg)) => Some(ResultModel::Message(error_text(msg))),
            Ok((lh, lrows)) => if !has_table(m, jc.right_table) {
                Some(ResultModel::Message(error_text(not_found_msg(jc.right_table))))
            } else {
                match select_result(table_of(m, jc.right_table)) {
                    Err(None) => None,
                    Err(Some(msg)) => Some(ResultModel::Message(error_text(msg))),
                    Ok((rh, rrows)) => match (
                        find_header(lh, column_part(jc.left_col), 0),
                        find_header(rh, column_part(jc.right_col), 0),
                    ) {
                        (Some(li), Some(ri)) => {
                            let headers = prefixed(left, lh) + prefixed(jc.right_table, rh);
                            let joined = join_rows(lrows, rrows, li as int, ri as int);
                            Some(ResultModel::Rows { headers, rows: rows_texts(filter_rows(joined, w, headers)) })
                        },
                        _ => Some(ResultModel::Message(join_col_msg())),
                    },
                }
            },
        }
    }
}

/// Find a column index, supporting both bare "col" and "table.col" syntax.
pub fn find_col_index(headers: &Vec<String>, _table: &str, col_ref: &str) -> (r: Option<usize>)
    ensures
        match r {
            Some(i) => find_header(strings_model(headers@), column_part(col_ref@), 0) == Some(i as nat)
                && i < headers@.len(),
            None => find_header(strings_model(headers@), column_part(col_ref@), 0) is None,
        },
{
    let cs = chars_of(col_ref);
    let mut d: usize = 0;
    while d < cs.len()
        invariant
            d <= cs@.len(),
            cs@ == col_ref@,
            first_index(col_ref@, '.', 0) == first_index(col_ref@, '.', d as nat),
        ensures
            d <= cs@.len(),
            cs@ == col_ref@,
            first_index(col_ref@, '.', 0) == first_index(col_ref@, '.', d as nat),
            d < cs@.len() ==> cs@[d as int] == '.',
        decreases cs@.len() - d,
    {
        if cs[d] == '.' {
            break;
        }
        d = d + 1;
    }
    if d < cs.len() {
        let name = col_ref.substring_char(d + 1, cs.len());
        assert(name@ =~= column_part(col_ref@));
        find_header_index(headers, name)
    } else {
        find_header_index(headers, col_ref)
    }
}

/// "table.col" for each header.
fn prefix_headers(table: &str, headers: &Vec<String>, out: &mut Vec<String>)
    ensures
        strings_model(final(out)@) == strings_model(old(out)@) + prefixed(table@, strings_model(headers@)),
{
    let ghost start = strings_model(out@);
    let mut i: usize = 0;
    while i < headers.len()
        invariant
            i <= headers@.len(),
            strings_model(out@) == start + prefixed(table@, strings_model(headers@)).take(i as int),
        decreases headers@.len() - i,
    {
        let mut h = String::from_str(table);
        h.append(".");
        h.append(headers[i].as_str());
        let ghost prev = strings_model(out@);
        out.push(h);
        proof {
            assert(strings_model(out@) =~= prev.push(h@));
            assert(prefixed(table@, strings_model(headers@)).take(i + 1) =~= prefixed(table@, strings_model(headers@)).take(i as int).push(table@ + "."@ + headers@[i as int]@));
        }
        i = i + 1;
    }
    assert(prefixed(table@, strings_model(headers@)).take(headers@.len() as int) =~= prefixed(table@, strings_model(headers@)));
}

/// The values of `l` then those of `r`.
fn concat_values(l: &Vec<Value>, r: &Vec<Value>) -> (out: Vec<Value>)
    ensures
        crate::types::values_model(out@) == crate::types::values_model(l@) + crate::types::values_model(r@),
{
    let mut out = crate::types::duplicate_values(l);
    let ghost start = crate::types::values_model(out@);
    let mut i: usize = 0;
    while i < r.len()
        invariant
            i <= r@.len(),
            crate::types::values_model(out@) == start + crate::types::values_model(r@).take(i as int),
        decreases r@.len() - i,
    {
        let ghost prev = crate::types::values_model(out@);
        let v = r[i].duplicate();
        out.push(v);
        proof {
            assert(crate::types::values_model(out@) =~= prev.push(v@));
            assert(crate::types::values_model(r@).take(i + 1) =~= crate::types::values_model(r@).take(i as int).push(r@[i as int]@));
        }
        i = i + 1;
    }
    assert(crate::types::values_model(r@).take(r@.len() as int) =~= crate::types::values_model(r@));
    out
}

/// The nested loop join of two row lists on the given columns.
fn join_loop(left_rows: &Vec<Row>, right_rows: &Vec<Row>, li: usize, ri: usize) -> (out: Vec<Row>)
    requires
        forall|k: int| 0 <= k < left_rows@.len() ==> li < (#[trigger] left_rows@[k]).values@.len(),
        forall|k: int| 0 <= k < right_rows@.len() ==> ri < (#[trigger] right_rows@[k]).values@.len(),
    ensures
        rows_values(out@) == join_rows(rows_values(left_rows@), rows_values(right_rows@), li as int, ri as int),
{
    let ghost ls = rows_values(left_rows@);
    let ghost rs = rows_values(right_rows@);
    let mut out: Vec<Row> = Vec::new();
    let mut a: usize = 0;
    assert(rows_values(out@) =~= join_rows(ls.take(0), rs, li as int, ri as int));
    while a < left_rows.len()
        invariant
            a <= left_rows@.len(),
            ls == rows_values(left_rows@),
            rs == rows_values(right_rows@),
            forall|k: int| 0 <= k < left_rows@.len() ==> li < (#[trigger] left_rows@[k]).values@.len(),
            forall|k: int| 0 <= k < right_rows@.len() ==> ri < (#[trigger] right_rows@[k]).values@.len(),
            rows_values(out@) == join_rows(ls.take(a as int), rs, li as int, ri as int),
        decreases left_rows@.len() - a,
    {
        let lr = &left_rows[a];
        let ghost l = lr@;
        let ghost base = rows_values(out@);
        assert(l == ls[a as int]);
        let mut b: usize = 0;
        assert(rows_values(out@) =~= base + matches_of(l, rs.take(0), li as int, ri as int));
        while b < right_rows.len()
            invariant
                b <= right_rows@.len(),
                a < left_rows@.len(),
                lr == &left_rows@[a as int],
                l == lr@,
                li < lr.values@.len(),
                rs == rows_values(right_rows@),
                forall|k: int| 0 <= k < right_rows@.len() ==> ri < (#[trigger] right_rows@[k]).values@.len(),
                rows_values(out@) == base + matches_of(l, rs.take(b as int), li as int, ri as int),
            decreases right_rows@.len() - b,
        {
            let rr = &right_rows[b];
            let ghost rm = rr@;
            assert(rm == rs[b as int]);
            assert(rs.take(b + 1).drop_last() =~= rs.take(b as int));
            assert(rs.take(b + 1).last() == rm);
            assert(l[li as int] == lr.values@[li as int]@);
            assert(rm[ri as int] == rr.values@[ri as int]@);
            if lr.values[li].same_as(&rr.values[ri]) {
                let vals = concat_values(&lr.values, &rr.values);
                let ghost prev = rows_values(out@);
                out.push(Row { values: vals });
                proof {
                    assert(rows_values(out@) =~= prev.push(l + rm));
                }
            }
            b = b + 1;
        }
        proof {
            assert(rs.take(right_rows@.len() as int) =~= rs);
            assert(ls.take(a + 1).drop_last() =~= ls.take(a as int));
            assert(ls.take(a + 1).last() == l);
        }
        a = a + 1;
    }
    assert(ls.take(left_rows@.len() as int) =~= ls);
    out
}

} // verus!

verus! {

/// `SELECT * FROM left JOIN right ON lc = rc [WHERE ...]`: a nested loop
/// join, columns named "table.col".
pub fn execute_join(left_table: &str, jc: &JoinClause, where_clause: &Option<Expr>, session: &Session, storage: &Storage) -> (r: ExecuteResult)
    requires
        storage.wf(),
    ensures
        result_is(r@, join_output(storage@, left_table@, jc@, where_model(*where_clause))),
{
    // Fetch both tables.
    let (left_hdrs, left_rows) = match session.select_all(storage, left_table) {
        Ok(x) => x,
        Err(e) => {
            proof {
                lemma_error_text(e@);
            }
            return ExecuteResult::Message(error_string(e.as_str()));
        },
    };
    let (right_hdrs, right_rows) = match session.select_all(storage, jc.right_table.as_str()) {
        Ok(x) => x,
        Err(e) => {
            proof {
                lemma_error_text(e@);
            }
            return ExecuteResult::Message(error_string(e.as_str()));
        },
    };
    proof {
        lemma_rows_width(table_of(storage@, left_table@), strings_model(left_hdrs@), rows_values(left_rows@));
        lemma_rows_width(
            table_of(storage@, jc.right_table@),
            strings_model(right_hdrs@),
            rows_values(right_rows@),
        );
    }
    // Resolve join column indices. Support both "col" and "table.col" syntax.
    let left_idx = find_col_index(&left_hdrs, left_table, jc.left_col.as_str());
    let right_idx = find_col_index(&right_hdrs, jc.right_table.as_str(), jc.right_col.as_str());
    let (li, ri) = match (left_idx, right_idx) {
        (Some(l), Some(r)) => (l, r),
        _ => return ExecuteResult::Message(String::from_str("Error: JOIN column not found.")),
    };
    // Build prefixed headers: left_table.col, right_table.col
    let mut headers: Vec<String> = Vec::new();
    prefix_headers(left_table, &left_hdrs, &mut headers);
    prefix_headers(jc.right_table.as_str(), &right_hdrs, &mut headers);
    proof {
        assert(strings_model(Seq::<String>::empty()) =~= Seq::<Seq<char>>::empty());
        assert forall|k: int| 0 <= k < left_rows@.len() implies li < (#[trigger] left_rows@[k]).values@.len() by {
            assert(rows_values(left_rows@)[k] == left_rows@[k]@);
        }
        assert forall|k: int| 0 <= k < right_rows@.len() implies ri < (#[trigger] right_rows@[k]).values@.len() by {
            assert(rows_values(right_rows@)[k] == right_rows@[k]@);
        }
    }
    // Nested loop join.
    let joined = join_loop(&left_rows, &right_rows, li, ri);
    proof {
        let lt = table_of(storage@, left_table@);
        let rt = table_of(storage@, jc.right_table@);
        lemma_join_width(
            rows_values(left_rows@),
            rows_values(right_rows@),
            li as int,
            ri as int,
            lt.columns.len(),
            rt.columns.len(),
        );
        let jr = join_rows(rows_values(left_rows@), rows_values(right_rows@), li as int, ri as int);
        assert(strings_model(headers@).len() == headers@.len());
        assert(headers@.len() == lt.columns.len() + rt.columns.len());
        assert forall|k: int| 0 <= k < joined@.len() implies headers@.len() <= (#[trigger] joined@[k]).values@.len() by {
            assert(rows_values(joined@)[k] == joined@[k]@);
            assert(jr[k].len() == lt.columns.len() + rt.columns.len());
        }
    }
    // Apply WHERE filter on joined result.
    let shown = filter_and_show(&joined, where_clause, &headers);
    ExecuteResult::Rows { headers, rows: shown }
}

/// Joined rows have the width of a left row plus that of a right row.
proof fn lemma_join_width(ls: Seq<Seq<ValueModel>>, rs: Seq<Seq<ValueModel>>, li: int, ri: int, lw: nat, rw: nat)
    requires
        forall|k: int| 0 <= k < ls.len() ==> (#[trigger] ls[k]).len() == lw,
        forall|k: int| 0 <= k < rs.len() ==> (#[trigger] rs[k]).len() == rw,
    ensures
        forall|k: int| 0 <= k < join_rows(ls, rs, li, ri).len() ==> (#[trigger] join_rows(ls, rs, li, ri)[k]).len() == lw + rw,
    decreases ls.len(),
{
    if ls.len() > 0 {
        let p = ls.drop_last();
        assert forall|k: int| 0 <= k < p.len() implies (#[trigger] p[k]).len() == lw by {
            assert(p[k] == ls[k]);
        }
        lemma_join_width(p, rs, li, ri, lw, rw);
        lemma_matches_width(ls.last(), rs, li, ri, lw, rw);
        let a = join_rows(p, rs, li, ri);
        let b = matches_of(ls.last(), rs, li, ri);
        assert forall|k: int| 0 <= k < (a + b).len() implies (#[trigger] (a + b)[k]).len() == lw + rw by {
            if k < a.len() {
                assert((a + b)[k] == a[k]);
            } else {
                assert((a + b)[k] == b[k - a.len()]);
            }
        }
    }
}

proof fn lemma_matches_width(l: Seq<ValueModel>, rs: Seq<Seq<ValueModel>>, li: int, ri: int, lw: nat, rw: nat)
    requires
        l.len() == lw,
        forall|k: int| 0 <= k < rs.len() ==> (#[trigger] rs[k]).len() == rw,
    ensures
        forall|k: int| 0 <= k < matches_of(l, rs, li, ri).len() ==> (#[trigger] matches_of(l, rs, li, ri)[k]).len() == lw + rw,
    decreases rs.len(),
{
    if rs.len() > 0 {
        let p = rs.drop_last();
        assert forall|k: int| 0 <= k < p.len() implies (#[trigger] p[k]).len() == rw by {
            assert(p[k] == rs[k]);
        }
        lemma_matches_width(l, p, li, ri, lw, rw);
        assert(rs.last() == rs[rs.len() - 1]);
        let m = matches_of(l, p, li, ri);
        if l[li] == rs.last()[ri] {
            assert(matches_of(l, rs, li, ri) == m.push(l + rs.last()));
            assert forall|k: int| 0 <= k < m.push(l + rs.last()).len() implies (#[trigger] m.push(l + rs.last())[k]).len() == lw + rw by {
                if k < m.len() {
                    assert(m.push(l + rs.last())[k] == m[k]);
                }
            }
        } else {
            assert(matches_of(l, rs, li, ri) == m);
        }
    }
}

} // verus!

verus! {

/// Whether a statement can be executed: a new table's schema must fit in
/// its metadata page.
pub open spec fn statement_fits(s: StatementModel) -> bool {
    s matches StatementModel::CreateTable { columns, .. } ==> metadata_fits(columns)
}

/// The message for a storage result: `ok` on success, the error otherwise.
pub open spec fn message_of(r: Result<(), Seq<char>>, ok: Seq<char>) -> ResultModel {
    match r {
        Ok(_) => ResultModel::Message(ok),
        Err(e) => ResultModel::Message(error_text(e)),
    }
}

pub open spec fn created_msg(name: Seq<char>) -> Seq<char> {
    "Table '"@ + name + "' created."@
}

pub open spec fn unrecognised_msg(cmd: Seq<char>) -> Seq<char> {
    "Unrecognised command: '"@ + cmd + "'"@
}

fn message_for(r: Result<(), String>, ok: &str) -> (m: ExecuteResult)
    ensures
        m@ == message_of(crate::storage::unit_result(r), ok@),
{
    match r {
        Ok(_) => ExecuteResult::Message(String::from_str(ok)),
        Err(e) => ExecuteResult::Message(error_string(e.as_str())),
    }
}

/// Whether the statements that read leave storage and session as they were.
pub open spec fn unchanged(s1: SessionModel, s2: SessionModel, m1: Seq<(Seq<char>, TableModel)>, m2: Seq<(Seq<char>, TableModel)>) -> bool {
    s2 == s1 && m2 == m1
}

/// Execute a parsed statement for a session. `file` and `wal_log` are the
/// bytes of the `.db` file and log a CREATE TABLE starts from (empty when
/// there are none).
pub fn execute(
    statement: Statement,
    session: &mut Session,
    storage: &mut Storage,
    slot: &mut TxnSlot,
    file: &[u8],
    wal_log: &[u8],
) -> (r: ExecuteResult)
    requires
        old(storage).wf(),
        statement_fits(statement@),
        statement@ is Begin && !old(session)@.in_transaction ==> old(slot)@ is None,
    ensures
        final(storage).wf(),
        final(session)@.id == old(session)@.id,
        !(statement@ is Begin || statement@ is Commit || statement@ is Rollback) ==> final(slot)@ == old(slot)@,
        statement@ is Begin ==> if old(session)@.in_transaction {
            final(slot)@ == old(slot)@
        } else if any_in_transaction(old(storage)@) {
            final(slot)@ is None
        } else {
            final(slot)@ == Some(old(session)@.id)
        },
        statement@ is Commit || statement@ is Rollback ==> if old(session)@.in_transaction {
            final(slot)@ == slot_released(old(slot)@, old(session)@.id)
        } else {
            final(slot)@ == old(slot)@
        },
        match statement@ {
            StatementModel::CreateTable { table_name, columns } => final(session)@ == old(session)@
                && exists|res: Result<(), Seq<char>>|
                create_outcome(old(storage)@, final(storage)@, table_name, columns, file@, wal_log@, res)
                    && r@ == message_of(res, created_msg(table_name)),
            StatementModel::Insert { table_name, values } => final(session)@ == old(session)@
                && exists|res: Result<(), Seq<char>>|
                insert_outcome(old(storage)@, final(storage)@, table_name, values, res) && r@ == message_of(
                    res,
                    "1 row inserted."@,
                ),
            StatementModel::Select { table_name, join, where_clause } => {
                &&& unchanged(old(session)@, final(session)@, old(storage)@, final(storage)@)
                &&& match join {
                    Some(jc) => result_is(r@, join_output(old(storage)@, table_name, jc, where_clause)),
                    None => if has_table(old(storage)@, table_name) {
                        result_is(r@, select_output(table_of(old(storage)@, table_name), where_clause))
                    } else {
                        r@ == ResultModel::Message(error_text(not_found_msg(table_name)))
                    },
                }
            },
            StatementModel::Unknown(cmd) => unchanged(old(session)@, final(session)@, old(storage)@, final(storage)@)
                && r@ == ResultModel::Message(unrecognised_msg(cmd)),
            StatementModel::Begin => if old(session)@.in_transaction {
                unchanged(old(session)@, final(session)@, old(storage)@, final(storage)@) && r@ == ResultModel::Message(
                    error_text(already_msg()),
                )
            } else if any_in_transaction(old(storage)@) {
                unchanged(old(session)@, final(session)@, old(storage)@, final(storage)@) && r@ == ResultModel::Message(
                    error_text(already_msg()),
                )
            } else {
                final(session)@.in_transaction && r@ == ResultModel::Message("Transaction started."@)
                    && each_table(old(storage)@, final(storage)@, |a: TableModel, b: TableModel| began(a, b))
            },
            StatementModel::Commit => if old(session)@.in_transaction {
                !final(session)@.in_transaction && r@ == ResultModel::Message("Transaction committed."@)
                    && each_table(old(storage)@, final(storage)@, |a: TableModel, b: TableModel| committed(a, b))
            } else {
                unchanged(old(session)@, final(session)@, old(storage)@, final(storage)@) && r@ == ResultModel::Message(
                    error_text(no_txn_msg()),
                )
            },
            StatementModel::Rollback => if old(session)@.in_transaction {
                !final(session)@.in_transaction && r@ == ResultModel::Message("Transaction rolled back."@)
                    && each_table(old(storage)@, final(storage)@, |a: TableModel, b: TableModel| rolled_back(a, b))
            } else {
                unchanged(old(session)@, final(session)@, old(storage)@, final(storage)@) && r@ == ResultModel::Message(
                    error_text(no_txn_msg()),
                )
            },
        },
{
    let ghost sm = statement@;
    match statement {
        Statement::CreateTable { table_name, columns } => {
            assert(sm == StatementModel::CreateTable { table_name: table_name@, columns: crate::types::columns_model(columns@) });
            let name = table_name.clone();
            let ghost cols = crate::types::columns_model(columns@);
            let ghost before = storage@;
            let res = session.create_table(storage, table_name, columns, file, wal_log);
            let mut ok = String::from_str("Table '");
            ok.append(name.as_str());
            ok.append("' created.");
            let m = message_for(res, ok.as_str());
            proof {
                let u = crate::storage::unit_result(res);
                assert(create_outcome(before, storage@, name@, cols, file@, wal_log@, u));
                assert(m@ == message_of(u, created_msg(name@)));
                assert(exists|x: Result<(), Seq<char>>|
                    create_outcome(before, storage@, name@, cols, file@, wal_log@, x) && m@ == message_of(
                        x,
                        created_msg(name@),
                    ));
                assert(sm matches StatementModel::CreateTable { table_name: tn, columns: cs } && tn == name@ && cs == cols);
            }
            m
        },
        Statement::Insert { table_name, values } => {
            let res = session.insert(storage, table_name.as_str(), values);
            message_for(res, "1 row inserted.")
        },
        Statement::Select { table_name, join, where_clause } => {
            match &join {
                Some(jc) => execute_join(table_name.as_str(), jc, &where_clause, session, storage),
                None => execute_select(table_name.as_str(), &where_clause, session, storage),
            }
        },
        Statement::Unknown(cmd) => {
            let mut m = String::from_str("Unrecognised command: '");
            m.append(cmd.as_str());
            m.append("'");
            ExecuteResult::Message(m)
        },
        Statement::Begin => {
            let res = session.begin(storage, slot);
            proof {
                if !old(session)@.in_transaction && any_in_transaction(old(storage)@) {
                    lemma_error_text(res->Err_0@);
                }
            }
            message_for(res, "Transaction started.")
        },
        Statement::Commit => {
            let res = session.commit(storage, slot);
            message_for(res, "Transaction committed.")
        },
        Statement::Rollback => {
            let res = session.rollback(storage, slot);
            message_for(res, "Transaction rolled back.")
        },
    }
}

} // verus!

verus! {

/// An integer is shown in decimal, with a '-' in front exactly when it is
/// negative, so that its text reads back as the same integer.
pub proof fn lemma_integer_text_reads_back(n: i64)
    ensures
        crate::parser::parse_int(value_text(ValueModel::Integer(n))) == Some(n),
        value_text(ValueModel::Integer(n)).len() > 0,
        (value_text(ValueModel::Integer(n))[0] == '-') == (n < 0),
{
    let s = value_text(ValueModel::Integer(n));
    if n < 0 {
        let m = (-n) as nat;
        crate::parser::lemma_decimal_reads_back(m);
        assert(s.skip(1) =~= crate::text::decimal(m));
    } else {
        crate::parser::lemma_decimal_reads_back(n as nat);
        assert(crate::parser::is_digit(s[0]));
    }
}

/// Two integers are shown alike only when they are equal.
pub proof fn lemma_integer_text_distinct(a: i64, b: i64)
    requires
        value_text(ValueModel::Integer(a)) == value_text(ValueModel::Integer(b)),
    ensures
        a == b,
{
    lemma_integer_text_reads_back(a);
    lemma_integer_text_reads_back(b);
}

} // verus!
