//! Binary row codec.
//!
//! A row is the concatenation of its cells, in column order:
//! an INTEGER cell is 8 bytes (i64, little-endian); a TEXT cell is a 4-byte
//! little-endian length followed by that many UTF-8 bytes. A value whose type
//! does not match its column is written as 0 (INTEGER) or as empty text (TEXT).
use vstd::prelude::*;
use vstd::bytes::*;
use vstd::utf8::*;
use crate::bytes::{
    copy_range, i64_at, i64_le, lemma_le_roundtrip, read_i64, read_u32, splice, u32_at, write_bytes,
    write_i64, write_u32,
};
use crate::text::{lemma_text_of_encoding, text_from_bytes, text_of_bytes};
use crate::types::{columns_model, Column, ColumnModel, DataType, Row, Value, ValueModel};

verus! {

/// The bytes of one cell of type `dt` holding `v`.
pub open spec fn cell_bytes(dt: DataType, v: ValueModel) -> Seq<u8> {
    match dt {
        DataType::Integer => match v {
            ValueModel::Integer(n) => i64_le(n),
            _ => i64_le(0),
        },
        DataType::Text => match v {
            ValueModel::Text(s) => spec_u32_to_le_bytes(encode_utf8(s).len() as u32) + encode_utf8(s),
            _ => spec_u32_to_le_bytes(0),
        },
    }
}

/// The size in bytes of one cell of type `dt` holding `v`.
pub open spec fn cell_size(dt: DataType, v: ValueModel) -> int {
    match dt {
        DataType::Integer => 8,
        DataType::Text => match v {
            ValueModel::Text(s) => 4 + encode_utf8(s).len() as int,
            _ => 4,
        },
    }
}

/// The number of cells a row has against a schema: columns and values are
/// paired up to the shorter of the two.
pub open spec fn cell_count(cols: Seq<ColumnModel>, vals: Seq<ValueModel>) -> nat {
    if cols.len() <= vals.len() {
        cols.len()
    } else {
        vals.len()
    }
}

/// The encoding of the first `n` cells.
pub open spec fn encode_cells(cols: Seq<ColumnModel>, vals: Seq<ValueModel>, n: nat) -> Seq<u8>
    decreases n,
{
    if n == 0 {
        Seq::empty()
    } else {
        encode_cells(cols, vals, (n - 1) as nat) + cell_bytes(cols[n - 1].data_type, vals[n - 1])
    }
}

/// The size of the first `n` cells.
pub open spec fn cells_size(cols: Seq<ColumnModel>, vals: Seq<ValueModel>, n: nat) -> int
    decreases n,
{
    if n == 0 {
        0
    } else {
        cells_size(cols, vals, (n - 1) as nat) + cell_size(cols[n - 1].data_type, vals[n - 1])
    }
}

/// The encoding of a row against a schema.
pub open spec fn encode_row(cols: Seq<ColumnModel>, vals: Seq<ValueModel>) -> Seq<u8> {
    encode_cells(cols, vals, cell_count(cols, vals))
}

/// The serialized size of a row against a schema.
pub open spec fn row_size(cols: Seq<ColumnModel>, vals: Seq<ValueModel>) -> int {
    cells_size(cols, vals, cell_count(cols, vals))
}

/// Decoding one cell of type `dt` at `off`: the value and the bytes it took,
/// or `None` where the buffer is too short.
pub open spec fn decode_cell(buf: Seq<u8>, off: int, dt: DataType) -> Option<(ValueModel, int)> {
    match dt {
        DataType::Integer => if off + 8 <= buf.len() {
            Some((ValueModel::Integer(i64_at(buf, off)), 8))
        } else {
            None
        },
        DataType::Text => if off + 4 <= buf.len() && off + 4 + u32_at(buf, off) <= buf.len() {
            let len = u32_at(buf, off) as int;
            Some((ValueModel::Text(text_of_bytes(buf.subrange(off + 4, off + 4 + len))), 4 + len))
        } else {
            None
        },
    }
}

/// Decoding the first `n` columns: the values and the offset after them.
pub open spec fn decode_cells(buf: Seq<u8>, cols: Seq<ColumnModel>, n: nat) -> Option<(Seq<ValueModel>, int)>
    decreases n,
{
    if n == 0 {
        Some((Seq::empty(), 0))
    } else {
        match decode_cells(buf, cols, (n - 1) as nat) {
            Some((vs, off)) => match decode_cell(buf, off, cols[n - 1].data_type) {
                Some((v, len)) => Some((vs.push(v), off + len)),
                None => None,
            },
            None => None,
        }
    }
}

/// Decoding a whole row against a schema.
pub open spec fn decode_row(buf: Seq<u8>, cols: Seq<ColumnModel>) -> Option<(Seq<ValueModel>, int)> {
    decode_cells(buf, cols, cols.len())
}

/// The value a cell reads back as: the value itself where its type matches
/// the column, else 0 or empty text.
pub open spec fn stored_value(dt: DataType, v: ValueModel) -> ValueModel {
    match dt {
        DataType::Integer => match v {
            ValueModel::Integer(n) => ValueModel::Integer(n),
            _ => ValueModel::Integer(0),
        },
        DataType::Text => match v {
            ValueModel::Text(s) => ValueModel::Text(s),
            _ => ValueModel::Text(Seq::empty()),
        },
    }
}

/// Every text value of the row fits the 4-byte length prefix.
pub open spec fn texts_fit(vals: Seq<ValueModel>) -> bool {
    forall|i: int|
        0 <= i < vals.len() ==> match #[trigger] vals[i] {
            ValueModel::Text(s) => encode_utf8(s).len() <= u32::MAX,
            _ => true,
        }
}

proof fn lemma_cell_len(dt: DataType, v: ValueModel)
    ensures
        cell_bytes(dt, v).len() == cell_size(dt, v),
        cell_size(dt, v) >= 4,
{
    lemma_le_roundtrip();
}

proof fn lemma_cells_len(cols: Seq<ColumnModel>, vals: Seq<ValueModel>, n: nat)
    requires
        n <= cols.len(),
        n <= vals.len(),
    ensures
        encode_cells(cols, vals, n).len() == cells_size(cols, vals, n),
        cells_size(cols, vals, n) >= 0,
    decreases n,
{
    if n > 0 {
        lemma_cells_len(cols, vals, (n - 1) as nat);
        lemma_cell_len(cols[n - 1].data_type, vals[n - 1]);
    }
}

proof fn lemma_cells_size_mono(cols: Seq<ColumnModel>, vals: Seq<ValueModel>, i: nat, n: nat)
    requires
        i <= n,
    ensures
        cells_size(cols, vals, i) <= cells_size(cols, vals, n),
    decreases n,
{
    if i < n {
        lemma_cells_size_mono(cols, vals, i, (n - 1) as nat);
        lemma_cell_len(cols[n - 1].data_type, vals[n - 1]);
    }
}

/// Decoding `encode_cells(n)` followed by any bytes gives back the first `n`
/// stored values and stops right after them.
proof fn lemma_decode_encode_cells(cols: Seq<ColumnModel>, vals: Seq<ValueModel>, n: nat, rest: Seq<u8>)
    requires
        n <= cols.len(),
        n <= vals.len(),
        texts_fit(vals),
    ensures
        decode_cells(encode_cells(cols, vals, n) + rest, cols, n) == Some(
            (
                Seq::new(n, |i: int| stored_value(cols[i].data_type, vals[i])),
                cells_size(cols, vals, n),
            ),
        ),
    decreases n,
{
    lemma_le_roundtrip();
    if n > 0 {
        let m = (n - 1) as nat;
        let dt = cols[m as int].data_type;
        let v = vals[m as int];
        let cell = cell_bytes(dt, v);
        let prefix = encode_cells(cols, vals, m);
        let buf = encode_cells(cols, vals, n) + rest;
        assert(buf =~= prefix + (cell + rest));
        lemma_decode_encode_cells(cols, vals, m, cell + rest);
        lemma_cells_len(cols, vals, m);
        lemma_cell_len(dt, v);
        let off = cells_size(cols, vals, m);
        assert(buf.subrange(off, off + cell.len()) =~= cell);
        match dt {
            DataType::Integer => {
                match v {
                    ValueModel::Integer(k) => {
                        assert(buf.subrange(off, off + 8) =~= i64_le(k));
                    },
                    _ => {
                        assert(buf.subrange(off, off + 8) =~= i64_le(0));
                    },
                }
            },
            DataType::Text => {
                match v {
                    ValueModel::Text(s) => {
                        let e = encode_utf8(s);
                        assert(0 <= m < vals.len());
                        assert(e.len() <= u32::MAX);
                        assert(buf.subrange(off, off + 4) =~= spec_u32_to_le_bytes(e.len() as u32));
                        assert(u32_at(buf, off) == e.len());
                        assert(buf.subrange(off + 4, off + 4 + e.len()) =~= e);
                        lemma_text_of_encoding(s);
                    },
                    _ => {
                        assert(buf.subrange(off, off + 4) =~= spec_u32_to_le_bytes(0));
                        assert(buf.subrange(off + 4, off + 4) =~= encode_utf8(Seq::<char>::empty()));
                        lemma_text_of_encoding(Seq::<char>::empty());
                        assert(encode_utf8(Seq::<char>::empty()) =~= Seq::<u8>::empty());
                    },
                }
            },
        }
        let prev = Seq::new(m, |i: int| stored_value(cols[i].data_type, vals[i]));
        assert(prev.push(stored_value(dt, v)) =~= Seq::new(
            n,
            |i: int| stored_value(cols[i].data_type, vals[i]),
        ));
    }
}

/// Reading back a serialized row: for a row with one value per column whose
/// texts fit the length prefix, decoding its encoding gives each value back
/// (a value of the wrong type reads back as 0 or empty text) and consumes
/// exactly the serialized size.
pub proof fn lemma_row_roundtrip(cols: Seq<ColumnModel>, vals: Seq<ValueModel>, rest: Seq<u8>)
    requires
        cols.len() == vals.len(),
        texts_fit(vals),
    ensures
        decode_row(encode_row(cols, vals) + rest, cols) == Some(
            (
                Seq::new(cols.len(), |i: int| stored_value(cols[i].data_type, vals[i])),
                row_size(cols, vals),
            ),
        ),
        encode_row(cols, vals).len() == row_size(cols, vals),
{
    lemma_decode_encode_cells(cols, vals, cols.len(), rest);
    lemma_cells_len(cols, vals, cols.len());
}

/// Compute the serialized byte size of a specific row.
pub fn serialized_size(row: &Row, columns: &[Column]) -> (size: usize)
    requires
        row_size(columns_model(columns@), row@) <= usize::MAX,
    ensures
        size == row_size(columns_model(columns@), row@),
{
    let ghost cols = columns_model(columns@);
    let ghost vals = row@;
    let n = if columns.len() <= row.values.len() { columns.len() } else { row.values.len() };
    let mut size: usize = 0;
    let mut i: usize = 0;
    while i < n
        invariant
            i <= n,
            n == cell_count(cols, vals),
            n <= columns@.len(),
            n <= row.values@.len(),
            cols == columns_model(columns@),
            vals == row@,
            size == cells_size(cols, vals, i as nat),
            cells_size(cols, vals, n as nat) <= usize::MAX,
        decreases n - i,
    {
        proof {
            lemma_cells_size_mono(cols, vals, (i + 1) as nat, n as nat);
        }
        let cell: usize = match columns[i].data_type {
            DataType::Integer => 8,
            DataType::Text => match &row.values[i] {
                Value::Text(s) => 4 + s.as_str().len(),
                _ => 4,
            },
        };
        size = size + cell;
        i = i + 1;
    }
    size
}

/// The serialized size of a row of at most 2^32 cells, computed without
/// any bound on the size itself.
pub fn row_size_wide(row: &Row, columns: &[Column]) -> (size: u128)
    requires
        columns@.len() <= 0x1_0000_0000,
    ensures
        size == row_size(columns_model(columns@), row@),
{
    let ghost cols = columns_model(columns@);
    let ghost vals = row@;
    let n = if columns.len() <= row.values.len() { columns.len() } else { row.values.len() };
    let mut size: u128 = 0;
    let mut i: usize = 0;
    while i < n
        invariant
            i <= n,
            n == cell_count(cols, vals),
            n <= columns@.len(),
            n <= row.values@.len(),
            n <= 0x1_0000_0000,
            cols == columns_model(columns@),
            vals == row@,
            size == cells_size(cols, vals, i as nat),
            size <= i * 0x1_0000_0000_0000_0004,
        decreases n - i,
    {
        let cell: u128 = match columns[i].data_type {
            DataType::Integer => 8,
            DataType::Text => match &row.values[i] {
                Value::Text(s) => 4 + s.as_str().as_bytes().len() as u128,
                _ => 4,
            },
        };
        assert(cols[i as int] == columns@[i as int]@);
        assert(vals[i as int] == row.values@[i as int]@);
        assert(cell == cell_size(cols[i as int].data_type, vals[i as int]));
        assert(cells_size(cols, vals, (i + 1) as nat) == cells_size(cols, vals, i as nat) + cell_size(
            cols[i as int].data_type,
            vals[i as int],
        ));
        assert(cell <= 0x1_0000_0000_0000_0004);
        assert(size + cell <= (i + 1) * 0x1_0000_0000_0000_0004) by (nonlinear_arith)
            requires
                size <= i * 0x1_0000_0000_0000_0004,
                cell <= 0x1_0000_0000_0000_0004,
        ;
        assert((i + 1) * 0x1_0000_0000_0000_0004 <= 0x1_0000_0001 * 0x1_0000_0000_0000_0004) by (nonlinear_arith)
            requires
                i < 0x1_0000_0000,
        ;
        size = size + cell;
        i = i + 1;
    }
    size
}

/// Serialize a Row into buf (must be at least serialized_size bytes).
pub fn serialize(row: &Row, columns: &[Column], buf: &mut Vec<u8>)
    requires
        row_size(columns_model(columns@), row@) <= old(buf)@.len(),
    ensures
        final(buf)@ == splice(old(buf)@, 0, encode_row(columns_model(columns@), row@)),
{
    let ghost cols = columns_model(columns@);
    let ghost vals = row@;
    let ghost start = buf@;
    let _blen = buf.len();
    let n = if columns.len() <= row.values.len() { columns.len() } else { row.values.len() };
    proof {
        lemma_cells_len(cols, vals, n as nat);
    }
    let mut offset: usize = 0;
    let mut i: usize = 0;
    while i < n
        invariant
            i <= n,
            n == cell_count(cols, vals),
            n <= columns@.len(),
            n <= row.values@.len(),
            cols == columns_model(columns@),
            vals == row@,
            offset == cells_size(cols, vals, i as nat),
            cells_size(cols, vals, n as nat) <= start.len(),
            start.len() <= usize::MAX,
            encode_cells(cols, vals, n as nat).len() == cells_size(cols, vals, n as nat),
            buf@ == splice(start, 0, encode_cells(cols, vals, i as nat)),
        decreases n - i,
    {
        proof {
            lemma_cells_size_mono(cols, vals, (i + 1) as nat, n as nat);
            lemma_cells_len(cols, vals, i as nat);
            lemma_cells_len(cols, vals, (i + 1) as nat);
            lemma_le_roundtrip();
        }
        let ghost before = buf@;
        match (columns[i].data_type, &row.values[i]) {
            (DataType::Integer, Value::Integer(v)) => {
                write_i64(buf, offset, *v);
                offset = offset + 8;
            },
            (DataType::Text, Value::Text(s)) => {
                let bytes = s.as_str().as_bytes();
                let len = bytes.len();
                write_u32(buf, offset, #[verifier::truncate] (len as u32));
                write_bytes(buf, offset + 4, bytes);
                offset = offset + 4 + len;
            },
            (DataType::Integer, _) => {
                write_i64(buf, offset, 0);
                offset = offset + 8;
            },
            (DataType::Text, _) => {
                write_u32(buf, offset, 0);
                offset = offset + 4;
            },
        }
        i = i + 1;
        assert(buf@ =~= splice(start, 0, encode_cells(cols, vals, i as nat)));
    }
}

/// Deserialize a Row from buf using the given schema.
pub fn deserialize(buf: &[u8], columns: &[Column]) -> (row: Row)
    requires
        decode_row(buf@, columns_model(columns@)) is Some,
    ensures
        row@ == decode_row(buf@, columns_model(columns@)).unwrap().0,
{
    let ghost cols = columns_model(columns@);
    let blen = buf.len();
    let mut values: Vec<Value> = Vec::with_capacity(columns.len());
    let mut offset: usize = 0;
    let mut i: usize = 0;
    while i < columns.len()
        invariant
            i <= columns@.len(),
            cols == columns_model(columns@),
            blen == buf@.len(),
            decode_cells(buf@, cols, columns@.len()) is Some,
            values@.len() == i,
            decode_cells(buf@, cols, i as nat) == Some((values@.map_values(|v: Value| v@), offset as int)),
        decreases columns@.len() - i,
    {
        proof {
            lemma_decode_prefix(buf@, cols, (i + 1) as nat, columns@.len());
        }
        let ghost vs_before = values@;
        match columns[i].data_type {
            DataType::Integer => {
                let n = read_i64(buf, offset);
                values.push(Value::Integer(n));
                offset = offset + 8;
            },
            DataType::Text => {
                let len = read_u32(buf, offset) as usize;
                let bytes = copy_range(buf, offset + 4, len);
                let s = text_from_bytes(bytes.as_slice());
                values.push(Value::Text(s));
                offset = offset + 4 + len;
            },
        }
        proof {
            assert(values@ =~= vs_before.push(values@[i as int]));
            assert(values@.map_values(|v: Value| v@) =~= vs_before.map_values(|v: Value| v@).push(
                values@[i as int]@,
            ));
        }
        i = i + 1;
    }
    Row { values }
}

/// Whether `buf` holds a whole row of the schema (so that `deserialize` can
/// read it).
pub fn row_decodes(buf: &[u8], columns: &[Column]) -> (b: bool)
    ensures
        b == decode_row(buf@, columns_model(columns@)) is Some,
{
    let ghost cols = columns_model(columns@);
    let blen = buf.len();
    let mut offset: usize = 0;
    let mut i: usize = 0;
    while i < columns.len()
        invariant
            i <= columns@.len(),
            cols == columns_model(columns@),
            blen == buf@.len(),
            offset <= blen,
            decode_cells(buf@, cols, i as nat) matches Some((_, o)) && o == offset,
        decreases columns@.len() - i,
    {
        let ghost before = decode_cells(buf@, cols, i as nat);
        match columns[i].data_type {
            DataType::Integer => {
                if blen - offset < 8 {
                    proof {
                        if decode_cells(buf@, cols, columns@.len()) is Some {
                            lemma_decode_prefix(buf@, cols, (i + 1) as nat, columns@.len());
                        }
                    }
                    return false;
                }
                offset = offset + 8;
            },
            DataType::Text => {
                if blen - offset < 4 {
                    proof {
                        if decode_cells(buf@, cols, columns@.len()) is Some {
                            lemma_decode_prefix(buf@, cols, (i + 1) as nat, columns@.len());
                        }
                    }
                    return false;
                }
                let len = read_u32(buf, offset) as usize;
                if blen - offset - 4 < len {
                    proof {
                        if decode_cells(buf@, cols, columns@.len()) is Some {
                            lemma_decode_prefix(buf@, cols, (i + 1) as nat, columns@.len());
                        }
                    }
                    return false;
                }
                offset = offset + 4 + len;
            },
        }
        i = i + 1;
    }
    true
}

/// A row that decodes also has every prefix decode.
proof fn lemma_decode_prefix(buf: Seq<u8>, cols: Seq<ColumnModel>, i: nat, n: nat)
    requires
        i <= n <= cols.len(),
        decode_cells(buf, cols, n) is Some,
    ensures
        decode_cells(buf, cols, i) is Some,
    decreases n,
{
    if i < n {
        lemma_decode_prefix(buf, cols, i, (n - 1) as nat);
    }
}

} // verus!

verus! {

/// A decoded row has one value per column.
pub proof fn lemma_decode_len(buf: Seq<u8>, cols: Seq<ColumnModel>, n: nat)
    requires
        n <= cols.len(),
    ensures
        decode_cells(buf, cols, n) matches Some((vs, _)) ==> vs.len() == n,
    decreases n,
{
    if n > 0 {
        lemma_decode_len(buf, cols, (n - 1) as nat);
    }
}

} // verus!
