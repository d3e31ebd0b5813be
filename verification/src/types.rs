//! Core data model: column types, cell values, columns, rows and the
//! pieces of a query (WHERE condition, JOIN clause).
use vstd::prelude::*;

verus! {

/// The data types a column can hold.
#[derive(Clone, Copy, Debug, PartialEq, Eq, Structural)]
pub enum DataType {
    Integer,
    Text,
}

/// A single value stored in a cell.
#[derive(Debug, Clone, PartialEq)]
pub enum Value {
    Integer(i64),
    Text(String),
    Null,
}

/// The mathematical value of a cell: text is its sequence of characters.
pub enum ValueModel {
    Integer(i64),
    Text(Seq<char>),
    Null,
}

impl View for Value {
    type V = ValueModel;

    open spec fn view(&self) -> ValueModel {
        match self {
            Value::Integer(n) => ValueModel::Integer(*n),
            Value::Text(s) => ValueModel::Text(s@),
            Value::Null => ValueModel::Null,
        }
    }
}

impl Value {
    /// A copy of this value with the same model.
    pub fn duplicate(&self) -> (r: Value)
        ensures
            r@ == self@,
    {
        match self {
            Value::Integer(n) => Value::Integer(*n),
            Value::Text(s) => Value::Text(s.clone()),
            Value::Null => Value::Null,
        }
    }

    /// Whether two values are equal (same variant, same content).
    pub fn same_as(&self, other: &Value) -> (r: bool)
        ensures
            r == (self@ == other@),
    {
        match (self, other) {
            (Value::Integer(a), Value::Integer(b)) => *a == *b,
            (Value::Text(a), Value::Text(b)) => {
                let r = a.eq(b);
                r
            },
            (Value::Null, Value::Null) => true,
            _ => false,
        }
    }
}

/// A column definition (name + type).
#[derive(Debug, Clone, PartialEq)]
pub struct Column {
    pub name: String,
    pub data_type: DataType,
}

/// The model of a column: its name as characters and its type.
pub struct ColumnModel {
    pub name: Seq<char>,
    pub data_type: DataType,
}

impl View for Column {
    type V = ColumnModel;

    open spec fn view(&self) -> ColumnModel {
        ColumnModel { name: self.name@, data_type: self.data_type }
    }
}

impl Column {
    /// A copy of this column with the same model.
    pub fn duplicate(&self) -> (r: Column)
        ensures
            r@ == self@,
    {
        Column { name: self.name.clone(), data_type: self.data_type }
    }
}

/// The models of a sequence of values.
pub open spec fn values_model(vals: Seq<Value>) -> Seq<ValueModel> {
    vals.map_values(|v: Value| v@)
}

/// The models of a sequence of columns.
pub open spec fn columns_model(cols: Seq<Column>) -> Seq<ColumnModel> {
    cols.map_values(|c: Column| c@)
}

/// A single row of values.
#[derive(Debug, Clone)]
pub struct Row {
    pub values: Vec<Value>,
}

impl View for Row {
    type V = Seq<ValueModel>;

    open spec fn view(&self) -> Seq<ValueModel> {
        values_model(self.values@)
    }
}

/// Copies a list of values, keeping each value's model.
pub fn duplicate_values(vals: &Vec<Value>) -> (r: Vec<Value>)
    ensures
        values_model(r@) == values_model(vals@),
{
    let mut out: Vec<Value> = Vec::new();
    let mut i: usize = 0;
    while i < vals.len()
        invariant
            i <= vals@.len(),
            out@.len() == i,
            forall|j: int| 0 <= j < i ==> #[trigger] out@[j]@ == vals@[j]@,
        decreases vals@.len() - i,
    {
        let v = vals[i].duplicate();
        out.push(v);
        i = i + 1;
    }
    assert(values_model(out@) =~= values_model(vals@));
    out
}

/// Comparison operators for WHERE clauses.
#[derive(Clone, Copy, Debug, PartialEq, Eq, Structural)]
pub enum CompOp {
    Eq,
    Lt,
    Gt,
}

/// A single WHERE condition: column <op> value.
#[derive(Debug, Clone, PartialEq)]
pub struct Expr {
    pub column: String,
    pub op: CompOp,
    pub value: Value,
}

/// The model of a WHERE condition.
pub struct ExprModel {
    pub column: Seq<char>,
    pub op: CompOp,
    pub value: ValueModel,
}

impl View for Expr {
    type V = ExprModel;

    open spec fn view(&self) -> ExprModel {
        ExprModel { column: self.column@, op: self.op, value: self.value@ }
    }
}

/// JOIN clause: FROM <left> JOIN <right> ON <left_col> = <right_col>
#[derive(Debug, Clone, PartialEq)]
pub struct JoinClause {
    pub right_table: String,
    pub left_col: String,
    pub right_col: String,
}

/// The model of a JOIN clause.
pub struct JoinModel {
    pub right_table: Seq<char>,
    pub left_col: Seq<char>,
    pub right_col: Seq<char>,
}

impl View for JoinClause {
    type V = JoinModel;

    open spec fn view(&self) -> JoinModel {
        JoinModel { right_table: self.right_table@, left_col: self.left_col@, right_col: self.right_col@ }
    }
}

} // verus!
