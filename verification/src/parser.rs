//! SQL parser: turns one statement of text into a `Statement`.
//!
//! Keywords are matched without regard to ASCII case; names and values keep
//! the case they were written in.
use vstd::prelude::*;
use crate::types::{
    columns_model, values_model, Column, ColumnModel, CompOp, DataType, Expr, ExprModel, JoinClause,
    JoinModel, Value, ValueModel,
};

verus! {

/// All the SQL statements the database understands.
#[derive(Debug, PartialEq)]
pub enum Statement {
    CreateTable { table_name: String, columns: Vec<Column> },
    Insert { table_name: String, values: Vec<Value> },
    Select { table_name: String, join: Option<JoinClause>, where_clause: Option<Expr> },
    Begin,
    Commit,
    Rollback,
    Unknown(String),
}

/// The model of a statement.
pub enum StatementModel {
    CreateTable { table_name: Seq<char>, columns: Seq<ColumnModel> },
    Insert { table_name: Seq<char>, values: Seq<ValueModel> },
    Select { table_name: Seq<char>, join: Option<JoinModel>, where_clause: Option<ExprModel> },
    Begin,
    Commit,
    Rollback,
    Unknown(Seq<char>),
}

/// The model of an optional JOIN clause.
pub open spec fn join_model(j: Option<JoinClause>) -> Option<JoinModel> {
    match j {
        Some(c) => Some(c@),
        None => None,
    }
}

/// The model of an optional WHERE condition.
pub open spec fn where_model(w: Option<Expr>) -> Option<ExprModel> {
    match w {
        Some(e) => Some(e@),
        None => None,
    }
}

impl View for Statement {
    type V = StatementModel;

    open spec fn view(&self) -> StatementModel {
        match self {
            Statement::CreateTable { table_name, columns } => StatementModel::CreateTable {
                table_name: table_name@,
                columns: columns_model(columns@),
            },
            Statement::Insert { table_name, values } => StatementModel::Insert {
                table_name: table_name@,
                values: values_model(values@),
            },
            Statement::Select { table_name, join, where_clause } => StatementModel::Select {
                table_name: table_name@,
                join: join_model(*join),
                where_clause: where_model(*where_clause),
            },
            Statement::Begin => StatementModel::Begin,
            Statement::Commit => StatementModel::Commit,
            Statement::Rollback => StatementModel::Rollback,
            Statement::Unknown(s) => StatementModel::Unknown(s@),
        }
    }
}

} // verus!

verus! {

// ---------------------------------------------------------------------------
// What a statement text means
// ---------------------------------------------------------------------------

pub open spec fn is_digit(c: char) -> bool {
    '0' <= c <= '9'
}

/// The value of a sequence of decimal digits.
pub open spec fn digits_value(d: Seq<char>) -> int
    decreases d.len(),
{
    if d.len() == 0 {
        0
    } else {
        digits_value(d.drop_last()) * 10 + (d.last() as int - '0' as int)
    }
}

pub open spec fn all_digits(d: Seq<char>) -> bool {
    d.len() > 0 && forall|i: int| 0 <= i < d.len() ==> is_digit(#[trigger] d[i])
}

/// What `str::parse::<i64>` gives: an optional sign, then one or more
/// decimal digits, in range.
pub open spec fn parse_int(s: Seq<char>) -> Option<i64> {
    if s.len() > 0 && s[0] == '-' {
        let d = s.skip(1);
        if all_digits(d) && digits_value(d) <= 0x8000_0000_0000_0000 {
            Some((-digits_value(d)) as i64)
        } else {
            None
        }
    } else {
        let d = if s.len() > 0 && s[0] == '+' {
            s.skip(1)
        } else {
            s
        };
        if all_digits(d) && digits_value(d) <= i64::MAX {
            Some(digits_value(d) as i64)
        } else {
            None
        }
    }
}

/// A literal: an integer where it parses as one, otherwise text without
/// surrounding single, then double, quotes.
pub open spec fn value_of(raw: Seq<char>) -> ValueModel {
    match parse_int(raw) {
        Some(n) => ValueModel::Integer(n),
        None => ValueModel::Text(crate::scan::trim_char(crate::scan::trim_char(raw, '\''), '"')),
    }
}

/// The condition split at position `p` by operator `op`.
pub open spec fn expr_at(cond: Seq<char>, p: nat, op: CompOp) -> ExprModel {
    ExprModel {
        column: crate::scan::trim(cond.take(p as int)),
        op,
        value: value_of(crate::scan::trim(cond.skip(p + 1 as int))),
    }
}

/// A WHERE condition `<col> <op> <val>`: the operators are tried in the
/// order `=`, `>`, `<`, each at its first occurrence.
pub open spec fn where_of(cond: Seq<char>) -> Option<ExprModel> {
    match crate::scan::first_index(cond, '=', 0) {
        Some(p) => Some(expr_at(cond, p, CompOp::Eq)),
        None => match crate::scan::first_index(cond, '>', 0) {
            Some(p) => Some(expr_at(cond, p, CompOp::Gt)),
            None => match crate::scan::first_index(cond, '<', 0) {
                Some(p) => Some(expr_at(cond, p, CompOp::Lt)),
                None => None,
            },
        },
    }
}

/// A column definition `<name> <type>`: split at the first space, the type
/// INTEGER or TEXT in any ASCII case; anything else defines no column.
pub open spec fn col_def(piece: Seq<char>) -> Option<ColumnModel> {
    let t = crate::scan::trim(piece);
    match crate::scan::first_index(t, ' ', 0) {
        None => None,
        Some(i) => {
            let ty = crate::text::upper(crate::scan::trim(t.skip(i + 1 as int)));
            if ty == "INTEGER"@ {
                Some(ColumnModel { name: t.take(i as int), data_type: DataType::Integer })
            } else if ty == "TEXT"@ {
                Some(ColumnModel { name: t.take(i as int), data_type: DataType::Text })
            } else {
                None
            }
        },
    }
}

pub open spec fn opt_seq<A>(o: Option<A>) -> Seq<A> {
    match o {
        Some(a) => seq![a],
        None => Seq::empty(),
    }
}

/// The columns defined by the comma-separated pieces of `s`.
pub open spec fn columns_from(s: Seq<char>) -> Seq<ColumnModel>
    decreases s.len(),
{
    match crate::scan::first_index(s, ',', 0) {
        None => opt_seq(col_def(s)),
        Some(i) => {
            proof {
                crate::scan::lemma_first_index_bound(s, ',', 0);
            }
            opt_seq(col_def(s.take(i as int))) + columns_from(s.skip(i + 1 as int))
        },
    }
}

/// The values of the comma-separated pieces of `s`.
pub open spec fn values_from(s: Seq<char>) -> Seq<ValueModel>
    decreases s.len(),
{
    match crate::scan::first_index(s, ',', 0) {
        None => seq![value_of(crate::scan::trim(s))],
        Some(i) => {
            proof {
                crate::scan::lemma_first_index_bound(s, ',', 0);
            }
            seq![value_of(crate::scan::trim(s.take(i as int)))] + values_from(s.skip(i + 1 as int))
        },
    }
}

/// What lies between the first '(' and the last ')' of `rest`, trimmed
/// (empty when there is no such range).
pub open spec fn in_parens(rest: Seq<char>) -> Seq<char> {
    let ps = crate::scan::or_len(crate::scan::first_index(rest, '(', 0), rest);
    let pe = crate::scan::or_len(crate::scan::last_index(rest, ')', rest.len()), rest);
    if ps < pe {
        crate::scan::trim(rest.subrange(ps + 1 as int, pe as int))
    } else {
        Seq::empty()
    }
}

/// `CREATE TABLE <name> (<col> <type>, ...)`.
pub open spec fn create_of(s: Seq<char>) -> StatementModel {
    let rest = crate::scan::trim(s.skip(12));
    let ps = crate::scan::or_len(crate::scan::first_index(rest, '(', 0), rest);
    StatementModel::CreateTable {
        table_name: crate::scan::trim(rest.take(ps as int)),
        columns: columns_from(in_parens(rest)),
    }
}

/// `INSERT INTO <name> VALUES (<val>, ...)`.
pub open spec fn insert_of(s: Seq<char>) -> StatementModel {
    let rest = crate::scan::trim(s.skip(11));
    let vk = crate::scan::or_len(crate::scan::find(crate::text::upper(rest), "VALUES"@), rest);
    StatementModel::Insert {
        table_name: crate::scan::trim(rest.take(vk as int)),
        values: values_from(in_parens(rest)),
    }
}

/// The end of a SELECT: with no JOIN the table name is what precedes WHERE;
/// with one, only the WHERE condition is read from the remainder.
pub open spec fn select_end(tname: Seq<char>, join: Option<JoinModel>, remainder: Seq<char>) -> StatementModel {
    let w = crate::scan::find(crate::text::upper(remainder), "WHERE"@);
    match join {
        None => match w {
            Some(k) => StatementModel::Select {
                table_name: crate::scan::trim(remainder.take(k as int)),
                join: None,
                where_clause: where_of(crate::scan::trim(remainder.skip(k + 5 as int))),
            },
            None => StatementModel::Select { table_name: crate::scan::trim(remainder), join: None, where_clause: None },
        },
        Some(j) => StatementModel::Select {
            table_name: tname,
            join: Some(j),
            where_clause: match w {
                Some(k) => where_of(crate::scan::trim(remainder.skip(k + 5 as int))),
                None => None,
            },
        },
    }
}

/// The part of a SELECT after `FROM`, with `JOIN` at position `j`:
/// `<left> JOIN <right> ON <col> = <col> [WHERE ...]`.
pub open spec fn join_select(after_from: Seq<char>, j: nat) -> StatementModel {
    let tname = crate::scan::trim(after_from.take(j as int));
    let after_join = crate::scan::trim(after_from.skip(j + 4 as int));
    let on_pos = crate::scan::or_len(crate::scan::find(crate::text::upper(after_join), " ON "@), after_join);
    let right_table = crate::scan::trim(after_join.take(on_pos as int));
    let after_on = if on_pos + 4 <= after_join.len() {
        crate::scan::trim(after_join.skip(on_pos + 4 as int))
    } else {
        Seq::empty()
    };
    let (on_cond, rest) = match crate::scan::find(crate::text::upper(after_on), "WHERE"@) {
        Some(w) => (crate::scan::trim(after_on.take(w as int)), crate::scan::trim(after_on.skip(w as int))),
        None => (after_on, Seq::empty()),
    };
    let join = match crate::scan::first_index(on_cond, '=', 0) {
        Some(eq) => Some(
            JoinModel {
                right_table,
                left_col: crate::scan::trim(on_cond.take(eq as int)),
                right_col: crate::scan::trim(on_cond.skip(eq + 1 as int)),
            },
        ),
        None => None,
    };
    select_end(tname, join, rest)
}

/// `SELECT * FROM <name> [JOIN <name> ON <col> = <col>] [WHERE <col> <op> <val>]`.
pub open spec fn select_of(s: Seq<char>) -> StatementModel {
    let fp = crate::scan::or_len(crate::scan::find(crate::text::upper(s), "FROM"@), s);
    let after_from = crate::scan::trim(s.skip(fp + 4 as int));
    match crate::scan::find(crate::text::upper(after_from), "JOIN"@) {
        None => select_end(Seq::empty(), None, after_from),
        Some(j) => join_select(after_from, j),
    }
}

/// Whether `parse` is defined on the text: a SELECT must have a FROM.
pub open spec fn parse_defined(input: Seq<char>) -> bool {
    let u = crate::text::upper(crate::scan::trim(input));
    crate::scan::starts_with(u, "SELECT"@) && !crate::scan::starts_with(u, "CREATE TABLE"@)
        && !crate::scan::starts_with(u, "INSERT INTO"@) ==> crate::scan::find(u, "FROM"@) is Some
}

/// The statement a text stands for.
pub open spec fn parse_spec(input: Seq<char>) -> StatementModel {
    let s = crate::scan::trim(input);
    let u = crate::text::upper(s);
    if crate::scan::starts_with(u, "CREATE TABLE"@) {
        create_of(s)
    } else if crate::scan::starts_with(u, "INSERT INTO"@) {
        insert_of(s)
    } else if crate::scan::starts_with(u, "SELECT"@) {
        select_of(s)
    } else if u == "BEGIN"@ {
        StatementModel::Begin
    } else if u == "COMMIT"@ {
        StatementModel::Commit
    } else if u == "ROLLBACK"@ {
        StatementModel::Rollback
    } else {
        StatementModel::Unknown(s)
    }
}

} // verus!

verus! {

// ---------------------------------------------------------------------------
// Parsing, on ranges of the input's characters
// ---------------------------------------------------------------------------

/// The text of characters `lo..hi` of the input.
fn text_of_range(input: &str, cs: &Vec<char>, lo: usize, hi: usize) -> (s: String)
    requires
        cs@ == input@,
        lo <= hi <= cs@.len(),
    ensures
        s@ == cs@.subrange(lo as int, hi as int),
{
    String::from_str(input.substring_char(lo, hi))
}

pub proof fn lemma_digits_step(cs: Seq<char>, a: int, k: int)
    requires
        0 <= a <= k < cs.len(),
    ensures
        digits_value(cs.subrange(a, k + 1)) == digits_value(cs.subrange(a, k)) * 10 + (cs[k] as int - '0' as int),
{
    assert(cs.subrange(a, k + 1).drop_last() =~= cs.subrange(a, k));
}

/// A prefix of a digit string is worth no more than the whole.
pub proof fn lemma_digits_mono(d: Seq<char>, k: int)
    requires
        all_digits(d),
        0 <= k <= d.len(),
    ensures
        0 <= digits_value(d.take(k)) <= digits_value(d),
    decreases d.len(),
{
    lemma_digits_nonneg(d.take(k));
    if k < d.len() {
        let p = d.drop_last();
        if p.len() > 0 {
            assert forall|i: int| 0 <= i < p.len() implies is_digit(#[trigger] p[i]) by {
                assert(p[i] == d[i]);
            }
            lemma_digits_mono(p, k);
            assert(p.take(k) =~= d.take(k));
        } else {
            assert(d.take(k) =~= Seq::<char>::empty());
        }
        lemma_digits_nonneg(p);
        assert(is_digit(d[d.len() - 1]));
    } else {
        assert(d.take(k) =~= d);
    }
}

proof fn lemma_digits_nonneg(d: Seq<char>)
    requires
        forall|i: int| 0 <= i < d.len() ==> is_digit(#[trigger] d[i]),
    ensures
        digits_value(d) >= 0,
    decreases d.len(),
{
    if d.len() > 0 {
        let p = d.drop_last();
        assert forall|i: int| 0 <= i < p.len() implies is_digit(#[trigger] p[i]) by {
            assert(p[i] == d[i]);
        }
        lemma_digits_nonneg(p);
        assert(is_digit(d[d.len() - 1]));
    }
}

/// `str::parse::<i64>` on characters `lo..hi`.
fn parse_int_range(cs: &Vec<char>, lo: usize, hi: usize) -> (r: Option<i64>)
    requires
        lo <= hi <= cs@.len(),
    ensures
        r == parse_int(cs@.subrange(lo as int, hi as int)),
{
    let ghost s = cs@.subrange(lo as int, hi as int);
    if lo == hi {
        return None;
    }
    let neg = cs[lo] == '-';
    let start = if cs[lo] == '-' || cs[lo] == '+' {
        lo + 1
    } else {
        lo
    };
    let ghost d = cs@.subrange(start as int, hi as int);
    assert(s[0] == cs@[lo as int]);
    assert(start == lo + 1 ==> s.skip(1) =~= d);
    assert(start == lo ==> s =~= d);
    if start == hi {
        return None;
    }
    let mut acc: u128 = 0;
    let mut k = start;
    assert(cs@.subrange(start as int, start as int) =~= Seq::<char>::empty());
    while k < hi
        invariant
            lo <= start <= k <= hi <= cs@.len(),
            lo < hi,
            start < hi,
            s == cs@.subrange(lo as int, hi as int),
            d == cs@.subrange(start as int, hi as int),
            s[0] == cs@[lo as int],
            neg == (cs@[lo as int] == '-'),
            (start == lo + 1) == (cs@[lo as int] == '-' || cs@[lo as int] == '+'),
            start == lo + 1 || start == lo,
            start == lo + 1 ==> s.skip(1) == d,
            start == lo ==> s == d,
            acc == digits_value(cs@.subrange(start as int, k as int)),
            acc <= 0x8000_0000_0000_0000,
            forall|j: int| start <= j < k ==> is_digit(#[trigger] cs@[j]),
        decreases hi - k,
    {
        let c = cs[k];
        if !('0' <= c && c <= '9') {
            assert(!is_digit(d[k - start]));
            return None;
        }
        proof {
            lemma_digits_step(cs@, start as int, k as int);
        }
        acc = acc * 10 + ((c as u32) - ('0' as u32)) as u128;
        if acc > 0x8000_0000_0000_0000 {
            proof {
                if all_digits(d) {
                    assert(d.take(k + 1 - start) =~= cs@.subrange(start as int, k + 1));
                    lemma_digits_mono(d, k + 1 - start);
                }
            }
            return None;
        }
        k = k + 1;
    }
    proof {
        assert(cs@.subrange(start as int, k as int) =~= d);
        assert forall|i: int| 0 <= i < d.len() implies is_digit(#[trigger] d[i]) by {
            assert(d[i] == cs@[start + i]);
        }
    }
    if neg {
        if acc == 0x8000_0000_0000_0000 {
            Some(i64::MIN)
        } else {
            Some(-(acc as i64))
        }
    } else if acc <= 0x7fff_ffff_ffff_ffff {
        Some(acc as i64)
    } else {
        None
    }
}

/// The literal in characters `lo..hi`.
fn value_range(input: &str, cs: &Vec<char>, lo: usize, hi: usize) -> (v: Value)
    requires
        cs@ == input@,
        lo <= hi <= cs@.len(),
    ensures
        v@ == value_of(cs@.subrange(lo as int, hi as int)),
{
    match parse_int_range(cs, lo, hi) {
        Some(n) => Value::Integer(n),
        None => {
            let (a, b) = crate::scan::trim_char_range(cs, lo, hi, '\'');
            let (c, d) = crate::scan::trim_char_range(cs, a, b, '"');
            Value::Text(text_of_range(input, cs, c, d))
        },
    }
}

/// The condition split at `lo + p` by operator `op`.
fn expr_range(input: &str, cs: &Vec<char>, lo: usize, hi: usize, p: usize, op: CompOp) -> (e: Expr)
    requires
        cs@ == input@,
        lo + p < hi <= cs@.len(),
    ensures
        e@ == expr_at(cs@.subrange(lo as int, hi as int), p as nat, op),
{
    let ghost s = cs@.subrange(lo as int, hi as int);
    assert(s.take(p as int) =~= cs@.subrange(lo as int, lo + p));
    assert(s.skip(p + 1) =~= cs@.subrange(lo + p + 1, hi as int));
    let (a, b) = crate::scan::trim_range(cs, lo, lo + p);
    let (c, d) = crate::scan::trim_range(cs, lo + p + 1, hi);
    Expr { column: text_of_range(input, cs, a, b), op, value: value_range(input, cs, c, d) }
}

/// The WHERE condition in characters `lo..hi`.
fn where_range(input: &str, cs: &Vec<char>, lo: usize, hi: usize) -> (w: Option<Expr>)
    requires
        cs@ == input@,
        lo <= hi <= cs@.len(),
    ensures
        where_model(w) == where_of(cs@.subrange(lo as int, hi as int)),
{
    match crate::scan::first_index_range(cs, lo, hi, '=') {
        Some(p) => return Some(expr_range(input, cs, lo, hi, p, CompOp::Eq)),
        None => {},
    }
    match crate::scan::first_index_range(cs, lo, hi, '>') {
        Some(p) => return Some(expr_range(input, cs, lo, hi, p, CompOp::Gt)),
        None => {},
    }
    match crate::scan::first_index_range(cs, lo, hi, '<') {
        Some(p) => Some(expr_range(input, cs, lo, hi, p, CompOp::Lt)),
        None => None,
    }
}

} // verus!

verus! {

/// The column defined by characters `lo..hi`, if any.
fn col_def_range(input: &str, cs: &Vec<char>, lo: usize, hi: usize, integer: &Vec<char>, text: &Vec<char>) -> (c: Option<Column>)
    requires
        cs@ == input@,
        lo <= hi <= cs@.len(),
        integer@ == "INTEGER"@,
        text@ == "TEXT"@,
    ensures
        match c {
            Some(col) => col_def(cs@.subrange(lo as int, hi as int)) == Some(col@),
            None => col_def(cs@.subrange(lo as int, hi as int)) is None,
        },
{
    let (a, b) = crate::scan::trim_range(cs, lo, hi);
    let ghost t = cs@.subrange(a as int, b as int);
    match crate::scan::first_index_range(cs, a, b, ' ') {
        None => None,
        Some(i) => {
            assert(t.skip(i + 1) =~= cs@.subrange(a + i + 1, b as int));
            assert(t.take(i as int) =~= cs@.subrange(a as int, a + i));
            let (c, d) = crate::scan::trim_range(cs, a + i + 1, b);
            if crate::scan::equals_upper(cs, c, d, integer) {
                Some(Column { name: text_of_range(input, cs, a, a + i), data_type: DataType::Integer })
            } else if crate::scan::equals_upper(cs, c, d, text) {
                Some(Column { name: text_of_range(input, cs, a, a + i), data_type: DataType::Text })
            } else {
                None
            }
        },
    }
}

/// The columns defined by the comma-separated pieces of characters `lo..hi`.
fn columns_range(input: &str, cs: &Vec<char>, lo: usize, hi: usize) -> (cols: Vec<Column>)
    requires
        cs@ == input@,
        lo <= hi <= cs@.len(),
    ensures
        columns_model(cols@) == columns_from(cs@.subrange(lo as int, hi as int)),
{
    let integer = crate::text::chars_of("INTEGER");
    let text = crate::text::chars_of("TEXT");
    let mut cols: Vec<Column> = Vec::new();
    let mut a = lo;
    loop
        invariant_except_break
            lo <= a <= hi <= cs@.len(),
            columns_model(cols@) + columns_from(cs@.subrange(a as int, hi as int)) == columns_from(
                cs@.subrange(lo as int, hi as int),
            ),
        invariant
            cs@ == input@,
            integer@ == "INTEGER"@,
            text@ == "TEXT"@,
        ensures
            columns_model(cols@) == columns_from(cs@.subrange(lo as int, hi as int)),
        decreases hi - a,
    {
        let ghost s = cs@.subrange(a as int, hi as int);
        let ghost before = columns_model(cols@);
        match crate::scan::first_index_range(cs, a, hi, ',') {
            None => {
                let c = col_def_range(input, cs, a, hi, &integer, &text);
                match c {
                    Some(col) => {
                        let ghost m = col@;
                        cols.push(col);
                        assert(columns_model(cols@) =~= before + seq![m]);
                    },
                    None => {},
                }
                assert(columns_model(cols@) =~= before + columns_from(s));
                break;
            },
            Some(i) => {
                assert(s.take(i as int) =~= cs@.subrange(a as int, a + i));
                assert(s.skip(i + 1) =~= cs@.subrange(a + i + 1, hi as int));
                let c = col_def_range(input, cs, a, a + i, &integer, &text);
                match c {
                    Some(col) => {
                        let ghost m = col@;
                        cols.push(col);
                        assert(columns_model(cols@) =~= before + seq![m]);
                    },
                    None => {
                        assert(columns_model(cols@) =~= before + Seq::<ColumnModel>::empty());
                    },
                }
                assert(columns_from(s) == opt_seq(col_def(s.take(i as int))) + columns_from(s.skip(i + 1)));
                assert(columns_model(cols@) + columns_from(cs@.subrange(a + i + 1, hi as int)) =~= before + columns_from(s));
                a = a + i + 1;
            },
        }
    }
    cols
}

/// The values of the comma-separated pieces of characters `lo..hi`.
fn values_range(input: &str, cs: &Vec<char>, lo: usize, hi: usize) -> (vals: Vec<Value>)
    requires
        cs@ == input@,
        lo <= hi <= cs@.len(),
    ensures
        values_model(vals@) == values_from(cs@.subrange(lo as int, hi as int)),
{
    let mut vals: Vec<Value> = Vec::new();
    let mut a = lo;
    loop
        invariant_except_break
            lo <= a <= hi <= cs@.len(),
            values_model(vals@) + values_from(cs@.subrange(a as int, hi as int)) == values_from(
                cs@.subrange(lo as int, hi as int),
            ),
        invariant
            cs@ == input@,
        ensures
            values_model(vals@) == values_from(cs@.subrange(lo as int, hi as int)),
        decreases hi - a,
    {
        let ghost s = cs@.subrange(a as int, hi as int);
        let ghost before = values_model(vals@);
        match crate::scan::first_index_range(cs, a, hi, ',') {
            None => {
                let (c, d) = crate::scan::trim_range(cs, a, hi);
                let v = value_range(input, cs, c, d);
                let ghost m = v@;
                vals.push(v);
                assert(values_model(vals@) =~= before + seq![m]);
                break;
            },
            Some(i) => {
                assert(s.take(i as int) =~= cs@.subrange(a as int, a + i));
                assert(s.skip(i + 1) =~= cs@.subrange(a + i + 1, hi as int));
                let (c, d) = crate::scan::trim_range(cs, a, a + i);
                let v = value_range(input, cs, c, d);
                let ghost m = v@;
                vals.push(v);
                assert(values_model(vals@) =~= before + seq![m]);
                assert(values_model(vals@) + values_from(cs@.subrange(a + i + 1, hi as int)) =~= before + values_from(s));
                a = a + i + 1;
            },
        }
    }
    vals
}

/// The range of `in_parens` of characters `lo..hi`.
fn in_parens_range(cs: &Vec<char>, lo: usize, hi: usize) -> (r: (usize, usize))
    requires
        lo <= hi <= cs@.len(),
    ensures
        r.0 <= r.1 <= cs@.len(),
        cs@.subrange(r.0 as int, r.1 as int) == in_parens(cs@.subrange(lo as int, hi as int)),
{
    let ghost rest = cs@.subrange(lo as int, hi as int);
    let ps = match crate::scan::first_index_range(cs, lo, hi, '(') {
        Some(i) => i,
        None => hi - lo,
    };
    let pe = match crate::scan::last_index_range(cs, lo, hi, ')') {
        Some(i) => i,
        None => hi - lo,
    };
    if ps < pe {
        assert(rest.subrange(ps + 1, pe as int) =~= cs@.subrange(lo + ps + 1, lo + pe));
        crate::scan::trim_range(cs, lo + ps + 1, lo + pe)
    } else {
        assert(cs@.subrange(lo as int, lo as int) =~= Seq::<char>::empty());
        (lo, lo)
    }
}

} // verus!

verus! {

/// `CREATE TABLE` on characters `lo..hi` (which begin with the keywords).
fn parse_create_table(input: &str, cs: &Vec<char>, lo: usize, hi: usize) -> (st: Statement)
    requires
        cs@ == input@,
        lo + 12 <= hi <= cs@.len(),
    ensures
        st@ == create_of(cs@.subrange(lo as int, hi as int)),
{
    let ghost s = cs@.subrange(lo as int, hi as int);
    assert(s.skip(12) =~= cs@.subrange(lo + 12, hi as int));
    let (a, b) = crate::scan::trim_range(cs, lo + 12, hi);
    let ghost rest = cs@.subrange(a as int, b as int);
    let ps = match crate::scan::first_index_range(cs, a, b, '(') {
        Some(i) => i,
        None => b - a,
    };
    assert(rest.take(ps as int) =~= cs@.subrange(a as int, a + ps));
    let (c, d) = crate::scan::trim_range(cs, a, a + ps);
    let table_name = text_of_range(input, cs, c, d);
    let (e, f) = in_parens_range(cs, a, b);
    let columns = columns_range(input, cs, e, f);
    Statement::CreateTable { table_name, columns }
}

/// `INSERT INTO` on characters `lo..hi` (which begin with the keywords).
fn parse_insert(input: &str, cs: &Vec<char>, lo: usize, hi: usize) -> (st: Statement)
    requires
        cs@ == input@,
        lo + 11 <= hi <= cs@.len(),
    ensures
        st@ == insert_of(cs@.subrange(lo as int, hi as int)),
{
    let ghost s = cs@.subrange(lo as int, hi as int);
    assert(s.skip(11) =~= cs@.subrange(lo + 11, hi as int));
    let (a, b) = crate::scan::trim_range(cs, lo + 11, hi);
    let ghost rest = cs@.subrange(a as int, b as int);
    let values_kw = crate::text::chars_of("VALUES");
    proof {
        reveal_strlit("VALUES");
    }
    let vk = match crate::scan::find_upper_range(cs, a, b, &values_kw) {
        Some(i) => i,
        None => b - a,
    };
    assert(rest.take(vk as int) =~= cs@.subrange(a as int, a + vk));
    let (c, d) = crate::scan::trim_range(cs, a, a + vk);
    let table_name = text_of_range(input, cs, c, d);
    let (e, f) = in_parens_range(cs, a, b);
    let values = values_range(input, cs, e, f);
    Statement::Insert { table_name, values }
}

/// The end of a SELECT on characters `lo..hi` of the remainder.
fn select_end_range(input: &str, cs: &Vec<char>, tname: String, join: Option<JoinClause>, lo: usize, hi: usize) -> (st: Statement)
    requires
        cs@ == input@,
        lo <= hi <= cs@.len(),
    ensures
        st@ == select_end(tname@, join_model(join), cs@.subrange(lo as int, hi as int)),
{
    let ghost rem = cs@.subrange(lo as int, hi as int);
    let where_kw = crate::text::chars_of("WHERE");
    proof {
        reveal_strlit("WHERE");
    }
    let w = crate::scan::find_upper_range(cs, lo, hi, &where_kw);
    match join {
        None => match w {
            Some(k) => {
                assert(rem.take(k as int) =~= cs@.subrange(lo as int, lo + k));
                assert(rem.skip(k + 5) =~= cs@.subrange(lo + k + 5, hi as int));
                let (a, b) = crate::scan::trim_range(cs, lo, lo + k);
                let (c, d) = crate::scan::trim_range(cs, lo + k + 5, hi);
                Statement::Select {
                    table_name: text_of_range(input, cs, a, b),
                    join: None,
                    where_clause: where_range(input, cs, c, d),
                }
            },
            None => {
                let (a, b) = crate::scan::trim_range(cs, lo, hi);
                Statement::Select { table_name: text_of_range(input, cs, a, b), join: None, where_clause: None }
            },
        },
        Some(j) => {
            let where_clause = match w {
                Some(k) => {
                    assert(rem.skip(k + 5) =~= cs@.subrange(lo + k + 5, hi as int));
                    let (c, d) = crate::scan::trim_range(cs, lo + k + 5, hi);
                    where_range(input, cs, c, d)
                },
                None => None,
            };
            Statement::Select { table_name: tname, join: Some(j), where_clause }
        },
    }
}

/// The part of a SELECT after `FROM` (characters `a..b`), with `JOIN` at
/// `a + j`.
#[verifier::spinoff_prover]
fn parse_join(input: &str, cs: &Vec<char>, a: usize, b: usize, j: usize) -> (st: Statement)
    requires
        cs@ == input@,
        a + j + 4 <= b <= cs@.len(),
    ensures
        st@ == join_select(cs@.subrange(a as int, b as int), j as nat),
{
    proof {
        reveal_strlit(" ON ");
        reveal_strlit("WHERE");
    }
    let ghost after_from = cs@.subrange(a as int, b as int);
    assert(after_from.take(j as int) =~= cs@.subrange(a as int, a + j));
    assert(after_from.skip(j + 4) =~= cs@.subrange(a + j + 4, b as int));
    let (c, d) = crate::scan::trim_range(cs, a, a + j);
    let tname = text_of_range(input, cs, c, d);
    let (e, f) = crate::scan::trim_range(cs, a + j + 4, b);
    let ghost after_join = cs@.subrange(e as int, f as int);
    let on_kw = crate::text::chars_of(" ON ");
    let on_pos = match crate::scan::find_upper_range(cs, e, f, &on_kw) {
        Some(i) => i,
        None => f - e,
    };
    assert(after_join.take(on_pos as int) =~= cs@.subrange(e as int, e + on_pos));
    let (g, h) = crate::scan::trim_range(cs, e, e + on_pos);
    let right_table = text_of_range(input, cs, g, h);
    // The condition after ON, up to WHERE.
    let (p, q) = if on_pos < f - e && 4 <= f - e - on_pos {
        assert(after_join.skip(on_pos + 4) =~= cs@.subrange(e + on_pos + 4, f as int));
        crate::scan::trim_range(cs, e + on_pos + 4, f)
    } else {
        assert(cs@.subrange(e as int, e as int) =~= Seq::<char>::empty());
        (e, e)
    };
    let ghost after_on = cs@.subrange(p as int, q as int);
    let where_kw = crate::text::chars_of("WHERE");
    let ((cl, ch), (rl, rh)) = match crate::scan::find_upper_range(cs, p, q, &where_kw) {
        Some(w) => {
            assert(after_on.take(w as int) =~= cs@.subrange(p as int, p + w));
            assert(after_on.skip(w as int) =~= cs@.subrange(p + w, q as int));
            (crate::scan::trim_range(cs, p, p + w), crate::scan::trim_range(cs, p + w, q))
        },
        None => {
            assert(cs@.subrange(p as int, p as int) =~= Seq::<char>::empty());
            ((p, q), (p, p))
        },
    };
    let ghost on_cond = cs@.subrange(cl as int, ch as int);
    let join = match crate::scan::first_index_range(cs, cl, ch, '=') {
        Some(eq) => {
            assert(on_cond.take(eq as int) =~= cs@.subrange(cl as int, cl + eq));
            assert(on_cond.skip(eq + 1) =~= cs@.subrange(cl + eq + 1, ch as int));
            let (l1, l2) = crate::scan::trim_range(cs, cl, cl + eq);
            let (r1, r2) = crate::scan::trim_range(cs, cl + eq + 1, ch);
            Some(
                JoinClause {
                    right_table,
                    left_col: text_of_range(input, cs, l1, l2),
                    right_col: text_of_range(input, cs, r1, r2),
                },
            )
        },
        None => None,
    };
    select_end_range(input, cs, tname, join, rl, rh)
}

/// `SELECT` on characters `lo..hi` (which begin with the keyword and hold
/// a FROM).
fn parse_select(input: &str, cs: &Vec<char>, lo: usize, hi: usize) -> (st: Statement)
    requires
        cs@ == input@,
        lo <= hi <= cs@.len(),
        crate::scan::find(crate::text::upper(cs@.subrange(lo as int, hi as int)), "FROM"@) is Some,
    ensures
        st@ == select_of(cs@.subrange(lo as int, hi as int)),
{
    let ghost s = cs@.subrange(lo as int, hi as int);
    let from_kw = crate::text::chars_of("FROM");
    proof {
        reveal_strlit("FROM");
        reveal_strlit("JOIN");
    }
    let fp = match crate::scan::find_upper_range(cs, lo, hi, &from_kw) {
        Some(i) => i,
        None => {
            assert(false);
            0
        },
    };
    assert(s.skip(fp + 4) =~= cs@.subrange(lo + fp + 4, hi as int));
    let (a, b) = crate::scan::trim_range(cs, lo + fp + 4, hi);
    let join_kw = crate::text::chars_of("JOIN");
    match crate::scan::find_upper_range(cs, a, b, &join_kw) {
        None => select_end_range(input, cs, String::new(), None, a, b),
        Some(j) => parse_join(input, cs, a, b, j),
    }
}

/// Parse a raw SQL string into a Statement. Keywords are matched without
/// regard to ASCII case.
pub fn parse(input: &str) -> (st: Statement)
    requires
        parse_defined(input@),
    ensures
        st@ == parse_spec(input@),
{
    let cs = crate::text::chars_of(input);
    let (lo, hi) = crate::scan::trim_range(&cs, 0, cs.len());
    assert(cs@.subrange(0, cs@.len() as int) =~= input@);
    let create_kw = crate::text::chars_of("CREATE TABLE");
    let insert_kw = crate::text::chars_of("INSERT INTO");
    let select_kw = crate::text::chars_of("SELECT");
    let from_kw = crate::text::chars_of("FROM");
    proof {
        reveal_strlit("CREATE TABLE");
        reveal_strlit("INSERT INTO");
    }
    if crate::scan::starts_with_upper(&cs, lo, hi, &create_kw) {
        parse_create_table(input, &cs, lo, hi)
    } else if crate::scan::starts_with_upper(&cs, lo, hi, &insert_kw) {
        parse_insert(input, &cs, lo, hi)
    } else if crate::scan::starts_with_upper(&cs, lo, hi, &select_kw) {
        parse_select(input, &cs, lo, hi)
    } else if crate::scan::equals_upper(&cs, lo, hi, &crate::text::chars_of("BEGIN")) {
        Statement::Begin
    } else if crate::scan::equals_upper(&cs, lo, hi, &crate::text::chars_of("COMMIT")) {
        Statement::Commit
    } else if crate::scan::equals_upper(&cs, lo, hi, &crate::text::chars_of("ROLLBACK")) {
        Statement::Rollback
    } else {
        Statement::Unknown(text_of_range(input, &cs, lo, hi))
    }
}

/// Whether `parse` is defined on the text (a SELECT must name FROM).
pub fn parse_is_defined(input: &str) -> (b: bool)
    ensures
        b == parse_defined(input@),
{
    let cs = crate::text::chars_of(input);
    let (lo, hi) = crate::scan::trim_range(&cs, 0, cs.len());
    assert(cs@.subrange(0, cs@.len() as int) =~= input@);
    let select = crate::scan::starts_with_upper(&cs, lo, hi, &crate::text::chars_of("SELECT"));
    let create = crate::scan::starts_with_upper(&cs, lo, hi, &crate::text::chars_of("CREATE TABLE"));
    let insert = crate::scan::starts_with_upper(&cs, lo, hi, &crate::text::chars_of("INSERT INTO"));
    if select && !create && !insert {
        crate::scan::find_upper_range(&cs, lo, hi, &crate::text::chars_of("FROM")).is_some()
    } else {
        true
    }
}

} // verus!

verus! {

/// The decimal notation of a number is a nonempty run of digits whose
/// value is that number.
pub proof fn lemma_decimal_reads_back(n: nat)
    ensures
        all_digits(crate::text::decimal(n)),
        digits_value(crate::text::decimal(n)) == n,
    decreases n,
{
    let s = crate::text::decimal(n);
    if n < 10 {
        lemma_digit_char(n as int);
        assert(s.drop_last() =~= Seq::<char>::empty());
        assert(digits_value(s.drop_last()) == 0);
        assert(s.last() == crate::text::digit_char(n as int));
    } else {
        let q = n / 10;
        let d = (n % 10) as int;
        lemma_decimal_reads_back(q);
        lemma_digit_char(d);
        let t = crate::text::decimal(q);
        assert(s == t.push(crate::text::digit_char(d)));
        assert(s.drop_last() =~= t);
        assert(s.last() == crate::text::digit_char(d));
        assert(forall|i: int| 0 <= i < s.len() ==> is_digit(#[trigger] s[i])) by {
            assert forall|i: int| 0 <= i < s.len() implies is_digit(#[trigger] s[i]) by {
                if i < t.len() {
                    assert(s[i] == t[i]);
                }
            }
        }
        assert(q * 10 + d == n) by (nonlinear_arith)
            requires
                q == n / 10,
                d == n % 10,
        ;
    }
}

proof fn lemma_digit_char(d: int)
    requires
        0 <= d < 10,
    ensures
        is_digit(crate::text::digit_char(d)),
        crate::text::digit_char(d) as int - '0' as int == d,
{
}

} // verus!

verus! {

// ---------------------------------------------------------------------------
// Keywords in any case
// ---------------------------------------------------------------------------

/// Two values alike up to the ASCII case of their texts.
pub open spec fn value_fold_eq(a: ValueModel, b: ValueModel) -> bool {
    match (a, b) {
        (ValueModel::Integer(m), ValueModel::Integer(n)) => m == n,
        (ValueModel::Text(s), ValueModel::Text(t)) => crate::text::upper(s) == crate::text::upper(t),
        (ValueModel::Null, ValueModel::Null) => true,
        _ => false,
    }
}

/// Two optional JOIN clauses alike up to the ASCII case of their names.
pub open spec fn join_fold_eq(a: Option<JoinModel>, b: Option<JoinModel>) -> bool {
    match (a, b) {
        (None, None) => true,
        (Some(x), Some(y)) => {
            &&& crate::text::upper(x.right_table) == crate::text::upper(y.right_table)
            &&& crate::text::upper(x.left_col) == crate::text::upper(y.left_col)
            &&& crate::text::upper(x.right_col) == crate::text::upper(y.right_col)
        },
        _ => false,
    }
}

/// Two optional WHERE conditions with the same operator, alike up to the
/// ASCII case of their column and value.
pub open spec fn where_fold_eq(a: Option<ExprModel>, b: Option<ExprModel>) -> bool {
    match (a, b) {
        (None, None) => true,
        (Some(x), Some(y)) => {
            &&& x.op == y.op
            &&& crate::text::upper(x.column) == crate::text::upper(y.column)
            &&& value_fold_eq(x.value, y.value)
        },
        _ => false,
    }
}

/// Two SELECT statements alike up to the ASCII case of their names and
/// values: the same table, the same join or none, the same condition or
/// none.
pub open spec fn select_fold_eq(a: StatementModel, b: StatementModel) -> bool {
    match (a, b) {
        (
            StatementModel::Select { table_name: t1, join: j1, where_clause: w1 },
            StatementModel::Select { table_name: t2, join: j2, where_clause: w2 },
        ) => {
            &&& crate::text::upper(t1) == crate::text::upper(t2)
            &&& join_fold_eq(j1, j2)
            &&& where_fold_eq(w1, w2)
        },
        _ => false,
    }
}

/// Digits are no letters: a run of digits equal up to case to another text
/// is that text.
proof fn lemma_fold_digits(x: Seq<char>, y: Seq<char>)
    requires
        crate::text::upper(x) == crate::text::upper(y),
        all_digits(x),
    ensures
        x == y,
{
    crate::scan::lemma_fold_at(x, y);
    assert forall|i: int| 0 <= i < x.len() implies x[i] == y[i] by {
        crate::scan::lemma_fold_char(x[i], y[i]);
        assert(is_digit(x[i]));
    }
    assert(x =~= y);
}

/// Whether a text reads as an integer, and which, does not depend on the
/// case of its letters.
pub proof fn lemma_fold_parse_int(x: Seq<char>, y: Seq<char>)
    requires
        crate::text::upper(x) == crate::text::upper(y),
    ensures
        parse_int(x) == parse_int(y),
{
    crate::scan::lemma_fold_at(x, y);
    if x.len() > 0 {
        crate::scan::lemma_fold_char(x[0], y[0]);
        crate::scan::lemma_fold_range(x, y, 1, x.len() as int);
        let (dx, dy) = if x[0] == '-' || x[0] == '+' {
            (x.skip(1), y.skip(1))
        } else {
            (x, y)
        };
        if all_digits(dx) {
            lemma_fold_digits(dx, dy);
        } else if all_digits(dy) {
            lemma_fold_digits(dy, dx);
        }
    }
}

/// A literal read from texts equal up to case: the same integer, or texts
/// equal up to case.
pub proof fn lemma_fold_value(x: Seq<char>, y: Seq<char>)
    requires
        crate::text::upper(x) == crate::text::upper(y),
    ensures
        value_fold_eq(value_of(x), value_of(y)),
{
    lemma_fold_parse_int(x, y);
    crate::scan::lemma_fold_trim_char(x, y, '\'');
    crate::scan::lemma_fold_trim_char(
        crate::scan::trim_char(x, '\''),
        crate::scan::trim_char(y, '\''),
        '"',
    );
}

/// A condition split at position `p` of texts equal up to case.
proof fn lemma_fold_expr_at(c1: Seq<char>, c2: Seq<char>, p: nat, op: CompOp)
    requires
        crate::text::upper(c1) == crate::text::upper(c2),
        p < c1.len(),
    ensures
        where_fold_eq(Some(expr_at(c1, p, op)), Some(expr_at(c2, p, op))),
{
    crate::scan::lemma_fold_at(c1, c2);
    crate::scan::lemma_fold_range(c1, c2, 0, p as int);
    crate::scan::lemma_fold_range(c1, c2, (p + 1) as int, c1.len() as int);
    crate::scan::lemma_fold_trim(c1.take(p as int), c2.take(p as int));
    crate::scan::lemma_fold_trim(c1.skip(p + 1 as int), c2.skip(p + 1 as int));
    lemma_fold_value(crate::scan::trim(c1.skip(p + 1 as int)), crate::scan::trim(c2.skip(p + 1 as int)));
}

/// A WHERE condition read from texts equal up to case.
pub proof fn lemma_fold_where(c1: Seq<char>, c2: Seq<char>)
    requires
        crate::text::upper(c1) == crate::text::upper(c2),
    ensures
        where_fold_eq(where_of(c1), where_of(c2)),
{
    crate::scan::lemma_fold_first_index(c1, c2, '=', 0);
    crate::scan::lemma_fold_first_index(c1, c2, '>', 0);
    crate::scan::lemma_fold_first_index(c1, c2, '<', 0);
    crate::scan::lemma_first_index_bound(c1, '=', 0);
    crate::scan::lemma_first_index_bound(c1, '>', 0);
    crate::scan::lemma_first_index_bound(c1, '<', 0);
    match crate::scan::first_index(c1, '=', 0) {
        Some(p) => lemma_fold_expr_at(c1, c2, p, CompOp::Eq),
        None => match crate::scan::first_index(c1, '>', 0) {
            Some(p) => lemma_fold_expr_at(c1, c2, p, CompOp::Gt),
            None => match crate::scan::first_index(c1, '<', 0) {
                Some(p) => lemma_fold_expr_at(c1, c2, p, CompOp::Lt),
                None => {},
            },
        },
    }
}

/// The end of a SELECT read from texts equal up to case.
proof fn lemma_fold_select_end(
    t1: Seq<char>,
    t2: Seq<char>,
    j1: Option<JoinModel>,
    j2: Option<JoinModel>,
    r1: Seq<char>,
    r2: Seq<char>,
)
    requires
        crate::text::upper(t1) == crate::text::upper(t2),
        join_fold_eq(j1, j2),
        crate::text::upper(r1) == crate::text::upper(r2),
    ensures
        select_fold_eq(select_end(t1, j1, r1), select_end(t2, j2, r2)),
{
    crate::scan::lemma_fold_at(r1, r2);
    let u = crate::text::upper(r1);
    assert(u.len() == r1.len());
    reveal_strlit("WHERE");
    crate::scan::lemma_find_bound(u, "WHERE"@, 0);
    match crate::scan::find(u, "WHERE"@) {
        Some(k) => {
            crate::scan::lemma_fold_range(r1, r2, 0, k as int);
            crate::scan::lemma_fold_range(r1, r2, (k + 5) as int, r1.len() as int);
            crate::scan::lemma_fold_trim(r1.take(k as int), r2.take(k as int));
            crate::scan::lemma_fold_trim(r1.skip(k + 5 as int), r2.skip(k + 5 as int));
            lemma_fold_where(crate::scan::trim(r1.skip(k + 5 as int)), crate::scan::trim(r2.skip(k + 5 as int)));
        },
        None => {
            crate::scan::lemma_fold_trim(r1, r2);
        },
    }
}

/// The part of a SELECT after FROM, with JOIN at `j`, read from texts equal
/// up to case.
proof fn lemma_fold_join_select(a1: Seq<char>, a2: Seq<char>, j: nat)
    requires
        crate::text::upper(a1) == crate::text::upper(a2),
        j + 4 <= a1.len(),
    ensures
        select_fold_eq(join_select(a1, j), join_select(a2, j)),
{
    crate::scan::lemma_fold_at(a1, a2);
    crate::scan::lemma_fold_range(a1, a2, 0, j as int);
    crate::scan::lemma_fold_range(a1, a2, (j + 4) as int, a1.len() as int);
    crate::scan::lemma_fold_trim(a1.take(j as int), a2.take(j as int));
    crate::scan::lemma_fold_trim(a1.skip(j + 4 as int), a2.skip(j + 4 as int));
    let b1 = crate::scan::trim(a1.skip(j + 4 as int));
    let b2 = crate::scan::trim(a2.skip(j + 4 as int));
    crate::scan::lemma_fold_at(b1, b2);
    let ub = crate::text::upper(b1);
    assert(ub.len() == b1.len());
    reveal_strlit(" ON ");
    crate::scan::lemma_find_bound(ub, " ON "@, 0);
    let on_pos = crate::scan::or_len(crate::scan::find(ub, " ON "@), b1);
    assert(on_pos == crate::scan::or_len(crate::scan::find(crate::text::upper(b2), " ON "@), b2));
    crate::scan::lemma_fold_range(b1, b2, 0, on_pos as int);
    crate::scan::lemma_fold_trim(b1.take(on_pos as int), b2.take(on_pos as int));
    let (o1, o2) = if on_pos + 4 <= b1.len() {
        crate::scan::lemma_fold_range(b1, b2, (on_pos + 4) as int, b1.len() as int);
        crate::scan::lemma_fold_trim(b1.skip(on_pos + 4 as int), b2.skip(on_pos + 4 as int));
        (crate::scan::trim(b1.skip(on_pos + 4 as int)), crate::scan::trim(b2.skip(on_pos + 4 as int)))
    } else {
        assert(crate::text::upper(Seq::<char>::empty()) =~= Seq::<char>::empty());
        (Seq::<char>::empty(), Seq::<char>::empty())
    };
    crate::scan::lemma_fold_at(o1, o2);
    let uo = crate::text::upper(o1);
    assert(uo.len() == o1.len());
    reveal_strlit("WHERE");
    crate::scan::lemma_find_bound(uo, "WHERE"@, 0);
    let (c1, c2, r1, r2) = match crate::scan::find(uo, "WHERE"@) {
        Some(w) => {
            crate::scan::lemma_fold_range(o1, o2, 0, w as int);
            crate::scan::lemma_fold_range(o1, o2, w as int, o1.len() as int);
            crate::scan::lemma_fold_trim(o1.take(w as int), o2.take(w as int));
            crate::scan::lemma_fold_trim(o1.skip(w as int), o2.skip(w as int));
            (
                crate::scan::trim(o1.take(w as int)),
                crate::scan::trim(o2.take(w as int)),
                crate::scan::trim(o1.skip(w as int)),
                crate::scan::trim(o2.skip(w as int)),
            )
        },
        None => {
            assert(crate::text::upper(Seq::<char>::empty()) =~= Seq::<char>::empty());
            (o1, o2, Seq::<char>::empty(), Seq::<char>::empty())
        },
    };
    crate::scan::lemma_fold_first_index(c1, c2, '=', 0);
    crate::scan::lemma_first_index_bound(c1, '=', 0);
    crate::scan::lemma_fold_at(c1, c2);
    match crate::scan::first_index(c1, '=', 0) {
        Some(eq) => {
            crate::scan::lemma_fold_range(c1, c2, 0, eq as int);
            crate::scan::lemma_fold_range(c1, c2, (eq + 1) as int, c1.len() as int);
            crate::scan::lemma_fold_trim(c1.take(eq as int), c2.take(eq as int));
            crate::scan::lemma_fold_trim(c1.skip(eq + 1 as int), c2.skip(eq + 1 as int));
        },
        None => {},
    }
    let tn1 = crate::scan::trim(a1.take(j as int));
    let tn2 = crate::scan::trim(a2.take(j as int));
    let rt1 = crate::scan::trim(b1.take(on_pos as int));
    let rt2 = crate::scan::trim(b2.take(on_pos as int));
    let jm1 = match crate::scan::first_index(c1, '=', 0) {
        Some(eq) => Some(
            JoinModel {
                right_table: rt1,
                left_col: crate::scan::trim(c1.take(eq as int)),
                right_col: crate::scan::trim(c1.skip(eq + 1 as int)),
            },
        ),
        None => None,
    };
    let jm2 = match crate::scan::first_index(c2, '=', 0) {
        Some(eq) => Some(
            JoinModel {
                right_table: rt2,
                left_col: crate::scan::trim(c2.take(eq as int)),
                right_col: crate::scan::trim(c2.skip(eq + 1 as int)),
            },
        ),
        None => None,
    };
    lemma_fold_select_end(tn1, tn2, jm1, jm2, r1, r2);
    assert(join_select(a1, j) == select_end(tn1, jm1, r1));
    assert(join_select(a2, j) == select_end(tn2, jm2, r2));
}

/// Keywords of a SELECT are matched without regard to ASCII case: two
/// SELECT texts that differ only in the case of their letters, their
/// keywords (FROM, JOIN, ON, WHERE) among them, read as the same query, with
/// the same join or none and the same condition or none, its names and
/// values alike up to case.
pub proof fn lemma_select_ignores_case(s1: Seq<char>, s2: Seq<char>)
    requires
        crate::text::upper(s1) == crate::text::upper(s2),
        crate::scan::find(crate::text::upper(s1), "FROM"@) is Some,
    ensures
        select_fold_eq(select_of(s1), select_of(s2)),
{
    crate::scan::lemma_fold_at(s1, s2);
    let u = crate::text::upper(s1);
    assert(u.len() == s1.len());
    reveal_strlit("FROM");
    crate::scan::lemma_find_bound(u, "FROM"@, 0);
    let fp = crate::scan::find(u, "FROM"@).unwrap();
    crate::scan::lemma_fold_range(s1, s2, (fp + 4) as int, s1.len() as int);
    crate::scan::lemma_fold_trim(s1.skip(fp + 4 as int), s2.skip(fp + 4 as int));
    let a1 = crate::scan::trim(s1.skip(fp + 4 as int));
    let a2 = crate::scan::trim(s2.skip(fp + 4 as int));
    crate::scan::lemma_fold_at(a1, a2);
    let ua = crate::text::upper(a1);
    assert(ua.len() == a1.len());
    reveal_strlit("JOIN");
    crate::scan::lemma_find_bound(ua, "JOIN"@, 0);
    match crate::scan::find(ua, "JOIN"@) {
        None => {
            assert(crate::text::upper(Seq::<char>::empty()) =~= Seq::<char>::empty());
            lemma_fold_select_end(Seq::empty(), Seq::empty(), None, None, a1, a2);
        },
        Some(j) => lemma_fold_join_select(a1, a2, j),
    }
}

/// Parsing ignores the ASCII case of keywords: two statement texts that
/// differ only in the case of their letters are the same kind of statement,
/// and where one is a SELECT the other is the same query up to the case of
/// its names and values.
pub proof fn lemma_parse_ignores_case(s1: Seq<char>, s2: Seq<char>)
    requires
        crate::text::upper(s1) == crate::text::upper(s2),
        parse_defined(s1),
    ensures
        parse_defined(s2),
        parse_spec(s1) is Select <==> parse_spec(s2) is Select,
        parse_spec(s1) is Select ==> select_fold_eq(parse_spec(s1), parse_spec(s2)),
        parse_spec(s1) is CreateTable <==> parse_spec(s2) is CreateTable,
        parse_spec(s1) is Insert <==> parse_spec(s2) is Insert,
        parse_spec(s1) is Unknown <==> parse_spec(s2) is Unknown,
        parse_spec(s1) == StatementModel::Begin <==> parse_spec(s2) == StatementModel::Begin,
        parse_spec(s1) == StatementModel::Commit <==> parse_spec(s2) == StatementModel::Commit,
        parse_spec(s1) == StatementModel::Rollback <==> parse_spec(s2) == StatementModel::Rollback,
{
    crate::scan::lemma_fold_trim(s1, s2);
    let t1 = crate::scan::trim(s1);
    let t2 = crate::scan::trim(s2);
    if parse_spec(s1) is Select {
        lemma_select_ignores_case(t1, t2);
    }
}

} // verus!
