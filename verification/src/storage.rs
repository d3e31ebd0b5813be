//! Table storage: one pager per table, its schema in page 0 and a B+Tree of
//! rows from page 1 on.
//!
//! Metadata page (page 0) layout:
//!   [0..4]    root_page  (u32 LE)
//!   [4..8]    num_columns (u32 LE)
//!   [8..]     columns: each is [name_len: u16 LE][name bytes][type: u8 (0=int,1=text)]
use vstd::prelude::*;
use vstd::bytes::*;
use vstd::utf8::*;
use crate::bytes::{copy_range, lemma_le_roundtrip, lemma_split, read_u16, read_u32, splice, u16_at, u32_at, write_bytes};
use crate::text::{concat, debug_quoted, debug_string, decimal, decimal_string, decimal_string_wide, int_string, int_text, lemma_text_of_encoding, text_from_bytes, text_of_bytes};
use crate::types::{columns_model, values_model, Column, ColumnModel, DataType, Row, Value, ValueModel};
use crate::btree::max_row_data_size;
use crate::pager::{apply_writes, can_open, opened_from, pages_of, zero_page, Pager, PagerModel};
use crate::wal::recovered;
use crate::wal::PAGE_SIZE;
use crate::row::{cell_size, cells_size, decode_row, encode_row, lemma_row_roundtrip, row_size, stored_value, texts_fit};

verus! {

pub const META_ROOT_OFFSET: usize = 0;
pub const META_NCOLS_OFFSET: usize = 4;
pub const META_COLS_OFFSET: usize = 8;

/// The stored bytes of a column name: its UTF-8 encoding, cut at 255 bytes.
pub open spec fn name_bytes(c: ColumnModel) -> Seq<u8> {
    let b = encode_utf8(c.name);
    if b.len() > 255 {
        b.take(255)
    } else {
        b
    }
}

/// The type tag of a column type.
pub open spec fn type_tag(t: DataType) -> u8 {
    match t {
        DataType::Integer => 0,
        DataType::Text => 1,
    }
}

/// The metadata entry of one column.
pub open spec fn column_meta(c: ColumnModel) -> Seq<u8> {
    spec_u16_to_le_bytes(name_bytes(c).len() as u16) + name_bytes(c) + seq![type_tag(c.data_type)]
}

/// The metadata entries of the columns, one after another.
pub open spec fn columns_meta(cols: Seq<ColumnModel>) -> Seq<u8>
    decreases cols.len(),
{
    if cols.len() == 0 {
        Seq::empty()
    } else {
        columns_meta(cols.drop_last()) + column_meta(cols.last())
    }
}

/// The metadata of a table: root page, column count, columns.
pub open spec fn metadata(root: u32, cols: Seq<ColumnModel>) -> Seq<u8> {
    spec_u32_to_le_bytes(root) + spec_u32_to_le_bytes(cols.len() as u32) + columns_meta(cols)
}

/// Whether the schema's metadata fits in page 0.
pub open spec fn metadata_fits(cols: Seq<ColumnModel>) -> bool {
    8 + columns_meta(cols).len() <= PAGE_SIZE
}

pub open spec fn corrupt_metadata_msg() -> Seq<char> {
    "Corrupt metadata page."@
}

pub open spec fn unknown_tag_msg(t: u8) -> Seq<char> {
    "Unknown type tag "@ + decimal(t as nat) + " in metadata"@
}

/// Reads one column entry at `off` of page `p`: the column and the offset
/// after it, or the error text.
pub open spec fn read_column(p: Seq<u8>, off: int) -> Result<(ColumnModel, int), Seq<char>> {
    if off + 2 > p.len() {
        Err(corrupt_metadata_msg())
    } else {
        let len = u16_at(p, off) as int;
        if off + 2 + len + 1 > p.len() {
            Err(corrupt_metadata_msg())
        } else {
            let name = text_of_bytes(p.subrange(off + 2, off + 2 + len));
            let t = p[off + 2 + len];
            if t == 0 {
                Ok((ColumnModel { name, data_type: DataType::Integer }, off + 3 + len))
            } else if t == 1 {
                Ok((ColumnModel { name, data_type: DataType::Text }, off + 3 + len))
            } else {
                Err(unknown_tag_msg(t))
            }
        }
    }
}

/// Reads `k` column entries one after another.
pub open spec fn read_columns(p: Seq<u8>, off: int, k: nat) -> Result<(Seq<ColumnModel>, int), Seq<char>>
    decreases k,
{
    if k == 0 {
        Ok((Seq::empty(), off))
    } else {
        match read_columns(p, off, (k - 1) as nat) {
            Err(e) => Err(e),
            Ok((v, o)) => match read_column(p, o) {
                Err(e) => Err(e),
                Ok((c, o2)) => Ok((v.push(c), o2)),
            },
        }
    }
}

/// The root page and schema stored in metadata page `p`.
pub open spec fn parse_metadata(p: Seq<u8>) -> Result<(u32, Seq<ColumnModel>), Seq<char>> {
    if p.len() < 8 {
        Err(corrupt_metadata_msg())
    } else {
        match read_columns(p, 8, u32_at(p, 4) as nat) {
            Err(e) => Err(e),
            Ok((cols, _)) => Ok((u32_at(p, 0), cols)),
        }
    }
}

proof fn lemma_read_columns_err(p: Seq<u8>, off: int, i: nat, k: nat)
    requires
        i <= k,
        read_columns(p, off, i) is Err,
    ensures
        read_columns(p, off, k) == read_columns(p, off, i),
    decreases k - i,
{
    if k > i {
        lemma_read_columns_err(p, off, i, (k - 1) as nat);
    }
}

/// The bytes of the metadata entries, built one column at a time.
fn encode_columns(columns: &Vec<Column>) -> (out: Vec<u8>)
    ensures
        out@ == columns_meta(columns_model(columns@)),
{
    let ghost cols = columns_model(columns@);
    let mut out: Vec<u8> = Vec::new();
    let mut i: usize = 0;
    while i < columns.len()
        invariant
            i <= columns@.len(),
            cols == columns_model(columns@),
            out@ == columns_meta(cols.take(i as int)),
        decreases columns@.len() - i,
    {
        let name = columns[i].name.as_str().as_bytes();
        let len: usize = if name.len() > 255 { 255 } else { name.len() };
        let ghost before = out@;
        let lb = u16_to_le_bytes(len as u16);
        crate::bytes::push_all(&mut out, lb.as_slice());
        let nb = copy_range(name, 0, len);
        crate::bytes::push_all(&mut out, nb.as_slice());
        let tag: u8 = match columns[i].data_type {
            DataType::Integer => 0,
            DataType::Text => 1,
        };
        out.push(tag);
        proof {
            let t = cols.take(i + 1);
            assert(t.drop_last() =~= cols.take(i as int));
            assert(t.last() == cols[i as int]);
            assert(cols[i as int] == columns@[i as int]@);
            let nm = name_bytes(cols[i as int]);
            assert(name@ == encode_utf8(columns@[i as int].name@));
            assert(nb@ =~= nm);
            assert(out@ =~= before + column_meta(cols[i as int]));
        }
        i = i + 1;
    }
    assert(cols.take(columns@.len() as int) =~= cols);
    out
}

/// Writes the table's root page and schema into page 0.
pub fn write_metadata(pager: &mut Pager, root_page: u32, columns: &Vec<Column>) -> (r: Result<(), String>)
    requires
        old(pager).wf(),
        metadata_fits(columns_model(columns@)),
    ensures
        r is Ok,
        final(pager).wf(),
        final(pager)@.page(0) == splice(old(pager)@.page(0), 0, metadata(root_page, columns_model(columns@))),
        forall|n: int| n != 0 ==> #[trigger] final(pager)@.page(n) == old(pager)@.page(n),
        forall|n: int| n != 0 ==> #[trigger] final(pager)@.is_dirty(n) == old(pager)@.is_dirty(n),
        final(pager)@.is_dirty(0),
        final(pager)@.disk == old(pager)@.disk,
        final(pager)@.file_pages == if old(pager)@.file_pages == 0 { 1 } else { old(pager)@.file_pages },
        final(pager)@.in_transaction == old(pager)@.in_transaction,
        final(pager)@.txn_id == old(pager)@.txn_id,
        final(pager)@.pending == old(pager)@.pending,
{
    proof {
        lemma_le_roundtrip();
        lemma_columns_meta_len(columns_model(columns@));
    }
    let mut page = match pager.read_page(0) {
        Ok(p) => p,
        Err(e) => return Err(e),
    };
    proof {
        crate::pager::lemma_page_len(pager@, 0);
    }
    let mut meta: Vec<u8> = Vec::new();
    let rb = u32_to_le_bytes(root_page);
    crate::bytes::push_all(&mut meta, rb.as_slice());
    let nb = u32_to_le_bytes(columns.len() as u32);
    crate::bytes::push_all(&mut meta, nb.as_slice());
    let cb = encode_columns(columns);
    crate::bytes::push_all(&mut meta, cb.as_slice());
    assert(meta@ =~= metadata(root_page, columns_model(columns@)));
    write_bytes(&mut page, 0, meta.as_slice());
    let r = pager.write_page(0, page.as_slice());
    assert(r is Ok);
    Ok(())
}

proof fn lemma_columns_meta_len(cols: Seq<ColumnModel>)
    ensures
        columns_meta(cols).len() >= 3 * cols.len(),
    decreases cols.len(),
{
    lemma_le_roundtrip();
    if cols.len() > 0 {
        lemma_columns_meta_len(cols.drop_last());
    }
}

/// The model of a decoded column and offset, or of the error text.
pub open spec fn column_result(r: Result<(Column, usize), String>) -> Result<(ColumnModel, int), Seq<char>> {
    match r {
        Ok((c, o)) => Ok((c@, o as int)),
        Err(e) => Err(e@),
    }
}

fn unknown_tag_string(t: u8) -> (s: String)
    ensures
        s@ == unknown_tag_msg(t),
{
    let mut s = String::from_str("Unknown type tag ");
    let d = decimal_string(t as u64);
    s.append(d.as_str());
    s.append(" in metadata");
    s
}

fn read_column_at(p: &[u8], off: usize) -> (res: Result<(Column, usize), String>)
    requires
        off <= p@.len(),
    ensures
        column_result(res) == read_column(p@, off as int),
{
    if p.len() - off < 2 {
        return Err(String::from_str("Corrupt metadata page."));
    }
    let len = read_u16(p, off) as usize;
    if p.len() - off - 2 < len + 1 {
        return Err(String::from_str("Corrupt metadata page."));
    }
    let bytes = copy_range(p, off + 2, len);
    let name = text_from_bytes(bytes.as_slice());
    let t = p[off + 2 + len];
    if t == 0 {
        Ok((Column { name, data_type: DataType::Integer }, off + 3 + len))
    } else if t == 1 {
        Ok((Column { name, data_type: DataType::Text }, off + 3 + len))
    } else {
        Err(unknown_tag_string(t))
    }
}

/// Reads the root page and schema from metadata page `p`.
pub fn read_metadata(p: &[u8]) -> (res: Result<(u32, Vec<Column>), String>)
    ensures
        match res {
            Ok((root, cols)) => parse_metadata(p@) == Ok::<(u32, Seq<ColumnModel>), Seq<char>>(
                (root, columns_model(cols@)),
            ),
            Err(e) => parse_metadata(p@) == Err::<(u32, Seq<ColumnModel>), Seq<char>>(e@),
        },
{
    if p.len() < 8 {
        return Err(String::from_str("Corrupt metadata page."));
    }
    let root = read_u32(p, META_ROOT_OFFSET);
    let ncols = read_u32(p, META_NCOLS_OFFSET);
    let ghost k = ncols as nat;
    let mut columns: Vec<Column> = Vec::new();
    let mut off: usize = META_COLS_OFFSET;
    let mut i: u32 = 0;
    assert(columns_model(columns@) =~= Seq::<ColumnModel>::empty());
    while i < ncols
        invariant
            8 <= off <= p@.len(),
            i <= ncols,
            ncols == u32_at(p@, 4),
            read_columns(p@, 8, i as nat) == Ok::<(Seq<ColumnModel>, int), Seq<char>>(
                (columns_model(columns@), off as int),
            ),
        decreases ncols - i,
    {
        match read_column_at(p, off) {
            Err(e) => {
                proof {
                    assert(read_columns(p@, 8, (i + 1) as nat) == Err::<(Seq<ColumnModel>, int), Seq<char>>(e@));
                    lemma_read_columns_err(p@, 8, (i + 1) as nat, ncols as nat);
                }
                return Err(e);
            },
            Ok((c, o2)) => {
                let ghost prev = columns_model(columns@);
                let ghost cm = c@;
                columns.push(c);
                off = o2;
                proof {
                    assert(columns_model(columns@) =~= prev.push(cm));
                }
            },
        }
        i = i + 1;
    }
    Ok((root, columns))
}

} // verus!

verus! {

/// Whether every column name has at most 255 bytes of UTF-8, so that it is
/// stored whole.
pub open spec fn names_fit(cols: Seq<ColumnModel>) -> bool {
    forall|i: int| 0 <= i < cols.len() ==> #[trigger] encode_utf8(cols[i].name).len() <= 255
}

proof fn lemma_read_column_of(q: Seq<u8>, off: int, c: ColumnModel)
    requires
        0 <= off,
        off + column_meta(c).len() <= q.len(),
        q.subrange(off, off + column_meta(c).len()) == column_meta(c),
        encode_utf8(c.name).len() <= 255,
    ensures
        read_column(q, off) == Ok::<(ColumnModel, int), Seq<char>>((c, off + column_meta(c).len())),
{
    lemma_le_roundtrip();
    let nb = name_bytes(c);
    let h = spec_u16_to_le_bytes(nb.len() as u16);
    let t = seq![type_tag(c.data_type)];
    assert(column_meta(c) == (h + nb) + t);
    lemma_split(q, off, h + nb, t);
    lemma_split(q, off, h, nb);
    assert(q.subrange(off, off + 2) == h);
    assert(u16_at(q, off) == nb.len());
    assert(q[off + 2 + nb.len()] == q.subrange(off + 2 + nb.len(), off + 3 + nb.len())[0]);
    lemma_text_of_encoding(c.name);
}

proof fn lemma_read_columns_of(q: Seq<u8>, off: int, cols: Seq<ColumnModel>)
    requires
        0 <= off,
        off + columns_meta(cols).len() <= q.len(),
        q.subrange(off, off + columns_meta(cols).len()) == columns_meta(cols),
        names_fit(cols),
    ensures
        read_columns(q, off, cols.len()) == Ok::<(Seq<ColumnModel>, int), Seq<char>>(
            (cols, off + columns_meta(cols).len()),
        ),
    decreases cols.len(),
{
    if cols.len() == 0 {
        assert(cols =~= Seq::<ColumnModel>::empty());
    } else {
        let p = cols.drop_last();
        lemma_split(q, off, columns_meta(p), column_meta(cols.last()));
        assert forall|i: int| 0 <= i < p.len() implies #[trigger] encode_utf8(p[i].name).len() <= 255 by {
            assert(p[i] == cols[i]);
        }
        lemma_read_columns_of(q, off, p);
        assert(encode_utf8(cols[cols.len() - 1].name).len() <= 255);
        lemma_read_column_of(q, off + columns_meta(p).len(), cols.last());
        assert(p.push(cols.last()) =~= cols);
    }
}

/// Reading back the metadata written into a page gives the root page and the
/// schema again, when every column name is stored whole.
pub proof fn lemma_metadata_roundtrip(page: Seq<u8>, root: u32, cols: Seq<ColumnModel>)
    requires
        page.len() == PAGE_SIZE,
        metadata_fits(cols),
        names_fit(cols),
    ensures
        parse_metadata(splice(page, 0, metadata(root, cols))) == Ok::<(u32, Seq<ColumnModel>), Seq<char>>(
            (root, cols),
        ),
{
    lemma_le_roundtrip();
    lemma_columns_meta_len(cols);
    let m = metadata(root, cols);
    let q = splice(page, 0, m);
    crate::bytes::lemma_splice(page, 0, m);
    let a = spec_u32_to_le_bytes(root);
    let b = spec_u32_to_le_bytes(cols.len() as u32);
    let c = columns_meta(cols);
    assert(m == (a + b) + c);
    lemma_split(q, 0, a + b, c);
    lemma_split(q, 0, a, b);
    assert(u32_at(q, 0) == root);
    assert(u32_at(q, 4) == cols.len() as u32);
    assert(cols.len() as u32 == cols.len());
    lemma_read_columns_of(q, 8, cols);
}

} // verus!

verus! {

/// Per-table handle: pager + schema + root page.
pub struct TableStore {
    pub pager: Pager,
    pub columns: Vec<Column>,
    pub root_page: u32,
}

/// The model of a table.
pub struct TableModel {
    pub pager: PagerModel,
    pub columns: Seq<ColumnModel>,
    pub root_page: u32,
}

impl View for TableStore {
    type V = TableModel;

    open spec fn view(&self) -> TableModel {
        TableModel { pager: self.pager@, columns: columns_model(self.columns@), root_page: self.root_page }
    }
}

/// The invariant of one table: a sound pager and a schema whose metadata
/// fits in page 0.
pub open spec fn table_wf(t: TableModel) -> bool {
    &&& crate::pager::pager_wf(t.pager)
    &&& metadata_fits(t.columns)
}

/// All tables, by name.
pub struct Storage {
    tables: Vec<(String, TableStore)>,
}

/// The tables, in the order they were added, with their names.
pub open spec fn tables_model(v: Seq<(String, TableStore)>) -> Seq<(Seq<char>, TableModel)> {
    v.map_values(|e: (String, TableStore)| (e.0@, e.1@))
}

impl View for Storage {
    type V = Seq<(Seq<char>, TableModel)>;

    closed spec fn view(&self) -> Seq<(Seq<char>, TableModel)> {
        tables_model(self.tables@)
    }
}

/// The invariant of the storage: names are distinct and every table is sound.
pub open spec fn storage_wf(m: Seq<(Seq<char>, TableModel)>) -> bool {
    &&& forall|i: int, j: int| 0 <= i < j < m.len() ==> #[trigger] m[i].0 != #[trigger] m[j].0
    &&& forall|i: int| 0 <= i < m.len() ==> table_wf(#[trigger] m[i].1)
}

/// Whether a table of that name exists.
pub open spec fn has_table(m: Seq<(Seq<char>, TableModel)>, name: Seq<char>) -> bool {
    exists|i: int| 0 <= i < m.len() && #[trigger] m[i].0 == name
}

/// The position of the table of that name.
pub open spec fn table_index(m: Seq<(Seq<char>, TableModel)>, name: Seq<char>) -> int {
    choose|i: int| 0 <= i < m.len() && #[trigger] m[i].0 == name
}

/// The table of that name.
pub open spec fn table_of(m: Seq<(Seq<char>, TableModel)>, name: Seq<char>) -> TableModel {
    m[table_index(m, name)].1
}

/// Whether any table is inside an explicit transaction.
pub open spec fn any_in_transaction(m: Seq<(Seq<char>, TableModel)>) -> bool {
    exists|i: int| 0 <= i < m.len() && (#[trigger] m[i]).1.pager.in_transaction
}

pub open spec fn not_found_msg(name: Seq<char>) -> Seq<char> {
    "Table '"@ + name + "' not found."@
}

pub open spec fn exists_msg(name: Seq<char>) -> Seq<char> {
    "Table '"@ + name + "' already exists."@
}

fn quoted_name_msg(prefix: &str, name: &str, suffix: &str) -> (s: String)
    ensures
        s@ == prefix@ + name@ + suffix@,
{
    let mut s = String::from_str(prefix);
    s.append(name);
    s.append(suffix);
    s
}

/// Names are distinct, so the position of a name is the one that holds it.
proof fn lemma_table_index(m: Seq<(Seq<char>, TableModel)>, i: int)
    requires
        storage_wf(m),
        0 <= i < m.len(),
    ensures
        has_table(m, m[i].0),
        table_index(m, m[i].0) == i,
{
    let k = table_index(m, m[i].0);
    assert(0 <= k < m.len() && m[k].0 == m[i].0);
    if k < i {
        assert(m[k].0 != m[i].0);
    } else if k > i {
        assert(m[i].0 != m[k].0);
    }
}

impl Storage {
    /// The invariant of the storage.
    pub open spec fn wf(&self) -> bool {
        storage_wf(self@)
    }

    pub fn new() -> (s: Storage)
        ensures
            s.wf(),
            s@ == Seq::<(Seq<char>, TableModel)>::empty(),
    {
        let s = Storage { tables: Vec::new() };
        assert(s@ =~= Seq::<(Seq<char>, TableModel)>::empty());
        s
    }

    /// The position of the table called `name`.
    fn find(&self, name: &str) -> (r: Option<usize>)
        requires
            self.wf(),
        ensures
            match r {
                Some(i) => i < self@.len() && self@[i as int].0 == name@ && table_index(self@, name@) == i
                    && has_table(self@, name@),
                None => !has_table(self@, name@),
            },
    {
        let key = String::from_str(name);
        let mut i: usize = 0;
        while i < self.tables.len()
            invariant
                i <= self.tables@.len(),
                key@ == name@,
                self.wf(),
                self@ == tables_model(self.tables@),
                forall|j: int| 0 <= j < i ==> #[trigger] self@[j].0 != name@,
            decreases self.tables@.len() - i,
        {
            let same = self.tables[i].0.eq(&key);
            assert(self@[i as int] == (self.tables@[i as int].0@, self.tables@[i as int].1@));
            if same {
                proof {
                    lemma_table_index(self@, i as int);
                }
                return Some(i);
            }
            i = i + 1;
        }
        None
    }

    /// Whether any table is inside an explicit transaction.
    pub fn in_transaction(&self) -> (b: bool)
        ensures
            b == any_in_transaction(self@),
    {
        let mut i: usize = 0;
        while i < self.tables.len()
            invariant
                i <= self.tables@.len(),
                self@ == tables_model(self.tables@),
                forall|j: int| 0 <= j < i ==> !(#[trigger] self@[j]).1.pager.in_transaction,
            decreases self.tables@.len() - i,
        {
            assert(self@[i as int].1 == self.tables@[i as int].1@);
            if self.tables[i].1.pager.in_transaction() {
                return true;
            }
            i = i + 1;
        }
        false
    }
}

} // verus!

verus! {

/// `m` with the table `name` set to `t`: replaced where it exists, added at
/// the end otherwise.
pub open spec fn put_table(m: Seq<(Seq<char>, TableModel)>, name: Seq<char>, t: TableModel) -> Seq<(Seq<char>, TableModel)> {
    if has_table(m, name) {
        m.update(table_index(m, name), (name, t))
    } else {
        m.push((name, t))
    }
}

/// Page 0 of a table file as opened: the file with its log replayed.
pub open spec fn opened_page0(file: Seq<u8>, wal_log: Seq<u8>) -> Seq<u8> {
    let pages = apply_writes(pages_of(file), recovered(wal_log));
    if pages.len() > 0 {
        pages[0]
    } else {
        zero_page()
    }
}

/// Whether a table file and its log can be opened as a table: the pager
/// opens, page 0 holds readable metadata, and its schema would fit again.
pub open spec fn can_open_table(file: Seq<u8>, wal_log: Seq<u8>) -> bool {
    &&& can_open(file, wal_log)
    &&& parse_metadata(opened_page0(file, wal_log)) matches Ok((_, cols)) && metadata_fits(cols)
}

/// The table opened from a file and its log.
pub open spec fn opened_table(t: TableModel, file: Seq<u8>, wal_log: Seq<u8>) -> bool {
    &&& opened_from(t.pager, file, wal_log)
    &&& parse_metadata(opened_page0(file, wal_log)) == Ok::<(u32, Seq<ColumnModel>), Seq<char>>(
        (t.root_page, t.columns),
    )
}

/// A table just created with schema `cols`: an empty tree at the root, the
/// metadata at the start of page 0, everything committed.
pub open spec fn created_table(t: TableModel, cols: Seq<ColumnModel>) -> bool {
    &&& t.columns == cols
    &&& t.root_page != 0
    &&& crate::btree::leaf_wf(t.pager.page(t.root_page as int))
    &&& crate::btree::leaf_cells(t.pager.page(t.root_page as int)).len() == 0
    &&& t.pager.page(0).subrange(0, metadata(t.root_page, cols).len() as int) == metadata(t.root_page, cols)
    &&& forall|n: int| !#[trigger] t.pager.is_dirty(n)
    &&& table_tree_ok(t)
    &&& table_sorted(t)
    &&& root_recorded(t)
    &&& select_result(t) == Ok::<(Seq<Seq<char>>, Seq<Seq<ValueModel>>), Option<Seq<char>>>(
        (column_names(cols), Seq::empty()),
    )
}

proof fn lemma_put_table(m: Seq<(Seq<char>, TableModel)>, name: Seq<char>, t: TableModel)
    requires
        storage_wf(m),
        table_wf(t),
    ensures
        storage_wf(put_table(m, name, t)),
        has_table(put_table(m, name, t), name),
        table_of(put_table(m, name, t), name) == t,
{
    let r = put_table(m, name, t);
    if has_table(m, name) {
        let k = table_index(m, name);
        assert(r[k] == (name, t));
        assert forall|i: int, j: int| 0 <= i < j < r.len() implies #[trigger] r[i].0 != #[trigger] r[j].0 by {
            assert(r[i].0 == m[i].0 && r[j].0 == m[j].0);
        }
        lemma_table_index(r, k);
    } else {
        let k = m.len() as int;
        assert(r[k] == (name, t));
        assert forall|i: int, j: int| 0 <= i < j < r.len() implies #[trigger] r[i].0 != #[trigger] r[j].0 by {
            if j < k {
                assert(r[i] == m[i] && r[j] == m[j]);
            } else {
                assert(r[i] == m[i]);
                assert(!(0 <= i < m.len() && m[i].0 == name));
            }
        }
        assert forall|i: int| 0 <= i < r.len() implies table_wf(#[trigger] r[i].1) by {
            if i < k {
                assert(r[i] == m[i]);
            }
        }
        lemma_table_index(r, k);
    }
}

/// What creating table `name` with schema `cols` over the given file bytes
/// does, ending in `m2` with result `r`.
pub open spec fn create_outcome(
    m1: Seq<(Seq<char>, TableModel)>,
    m2: Seq<(Seq<char>, TableModel)>,
    name: Seq<char>,
    cols: Seq<ColumnModel>,
    file: Seq<u8>,
    wal_log: Seq<u8>,
    r: Result<(), Seq<char>>,
) -> bool {
    &&& has_table(m1, name) ==> r == Err::<(), Seq<char>>(exists_msg(name))
    &&& !has_table(m1, name) ==> (r is Ok <==> can_open(file, wal_log) && apply_writes(
        pages_of(file),
        recovered(wal_log),
    ).len() + 2 <= crate::pager::MAX_PAGES)
    &&& r is Err ==> m2 == m1
    &&& r is Ok ==> {
        let t = m2.last().1;
        &&& m2 == m1.push((name, t))
        &&& created_table(t, cols)
        &&& t.pager.in_transaction == any_in_transaction(m1)
    }
}

impl Storage {
    /// Puts a table under `name`, replacing a table of that name.
    fn put(&mut self, name: &str, store: TableStore)
        requires
            old(self).wf(),
            table_wf(store@),
        ensures
            final(self).wf(),
            final(self)@ == put_table(old(self)@, name@, store@),
            table_of(final(self)@, name@) == store@,
    {
        let ghost t = store@;
        proof {
            lemma_put_table(self@, name@, t);
        }
        match self.find(name) {
            Some(i) => {
                let ghost before = self.tables@;
                self.tables.set(i, (String::from_str(name), store));
                assert(tables_model(self.tables@) =~= tables_model(before).update(i as int, (name@, t)));
            },
            None => {
                let ghost before = self.tables@;
                self.tables.push((String::from_str(name), store));
                assert(tables_model(self.tables@) =~= tables_model(before).push((name@, t)));
            },
        }
    }

    /// Open an existing table from the bytes of its `.db` file and of its log.
    pub fn open_table(&mut self, name: &str, file: &[u8], wal_log: &[u8]) -> (r: Result<(), String>)
        requires
            old(self).wf(),
        ensures
            final(self).wf(),
            r is Ok <==> can_open_table(file@, wal_log@),
            r is Ok ==> final(self)@ == put_table(old(self)@, name@, table_of(final(self)@, name@))
                && opened_table(table_of(final(self)@, name@), file@, wal_log@),
            r is Err ==> final(self)@ == old(self)@,
    {
        let path = concat(name, ".db");
        let pager = match Pager::open(path.as_str(), file, wal_log) {
            Ok(p) => p,
            Err(e) => return Err(e),
        };
        let page0 = match pager.read_page(0) {
            Ok(p) => p,
            Err(e) => return Err(e),
        };
        proof {
            let pages = apply_writes(pages_of(file@), recovered(wal_log@));
            assert(pager@.page(0) == pager@.committed_page(0));
            assert(page0@ == opened_page0(file@, wal_log@));
        }
        let (root_page, columns) = match read_metadata(page0.as_slice()) {
            Ok(x) => x,
            Err(e) => return Err(e),
        };
        if !schema_fits(&columns) {
            return Err(String::from_str("Corrupt metadata page."));
        }
        let store = TableStore { pager, columns, root_page };
        self.put(name, store);
        Ok(())
    }

    /// Create a table from the bytes of its (usually empty) `.db` file and
    /// log: page 0 holds the metadata, the next page the root of an empty
    /// tree; the result is committed at once. Created inside a transaction,
    /// the table joins it.
    pub fn create_table(&mut self, name: String, columns: Vec<Column>, file: &[u8], wal_log: &[u8]) -> (r: Result<(), String>)
        requires
            old(self).wf(),
            metadata_fits(columns_model(columns@)),
        ensures
            final(self).wf(),
            create_outcome(old(self)@, final(self)@, name@, columns_model(columns@), file@, wal_log@, unit_result(r)),
    {
        if let Some(_) = self.find(name.as_str()) {
            return Err(quoted_name_msg("Table '", name.as_str(), "' already exists."));
        }
        let in_txn = self.in_transaction();
        let path = concat(name.as_str(), ".db");
        let mut pager = match Pager::open(path.as_str(), file, wal_log) {
            Ok(p) => p,
            Err(e) => return Err(e),
        };
        // Page 0 = metadata.
        match pager.allocate_page() {
            Ok(_) => {},
            Err(e) => return Err(e),
        }
        // Page 1+ = B+Tree root (a single empty leaf).
        let root_page = match crate::btree::create_tree(&mut pager) {
            Ok(n) => n,
            Err(e) => return Err(e),
        };
        let ghost after_tree = pager@;
        let _ = write_metadata(&mut pager, root_page, &columns);
        let ghost after_meta = pager@;
        let _ = pager.flush();
        let ghost after_flush = pager@;
        assert(after_flush.page(0) == after_meta.page(0));
        assert(after_flush.page(root_page as int) == after_meta.page(root_page as int));
        if in_txn {
            let _ = pager.begin();
            assert(pager@.pages == after_flush.pages);
            assert(pager@.dirty == after_flush.dirty);
        }
        assert(pager@.dirty == after_flush.dirty);
        assert forall|n: int| !#[trigger] pager@.is_dirty(n) by {
            assert(!after_flush.is_dirty(n));
        }
        assert(pager@.page(0) == after_flush.page(0));
        assert(pager@.page(root_page as int) == after_flush.page(root_page as int));
        proof {
            let cols = columns_model(columns@);
            let meta = metadata(root_page, cols);
            lemma_le_roundtrip();
            lemma_columns_meta_len(cols);
            crate::pager::lemma_page_len(after_tree, 0);
            crate::bytes::lemma_splice(after_tree.page(0), 0, meta);
            assert(pager@.page(0) == after_meta.page(0));
            assert(pager@.page(root_page as int) == after_tree.page(root_page as int));
        }
        proof {
            let cols = columns_model(columns@);
            let pm = pager@;
            assert(root_page != 0);
            assert(crate::btree::leaf_wf(pm.page(root_page as int)));
            assert(crate::btree::leaf_cells(pm.page(root_page as int)).len() == 0);
            assert(pm.page(0).subrange(0, metadata(root_page, cols).len() as int) == metadata(root_page, cols));
            assert(forall|n: int| !#[trigger] pm.is_dirty(n));
            assert(pm.in_transaction == in_txn);
            assert(pm.file_pages == after_tree.file_pages);
            assert forall|n: int| n != 0 implies #[trigger] pm.page(n) == after_tree.page(n) by {
                assert(pm.page(n) == after_flush.page(n));
                assert(after_flush.page(n) == after_meta.page(n));
            }
            crate::shape::lemma_tree_frame(after_tree, pm, root_page as int);
            crate::order::lemma_sorted_frame(after_tree, pm, root_page as int);
            crate::pager::lemma_page_len(pm, 0);
            lemma_root_of_prefix(pm.page(0), root_page, cols);
            assert(decoded_rows(Seq::<Seq<u8>>::empty(), cols) =~= Seq::<Seq<ValueModel>>::empty());
        }
        let store = TableStore { pager, columns, root_page };
        let ghost before = self.tables@;
        self.tables.push((name, store));
        proof {
            assert(tables_model(self.tables@) =~= tables_model(before).push((name@, store@)));
            let m = self@;
            let k = before.len() as int;
            assert forall|i: int, j: int| 0 <= i < j < m.len() implies #[trigger] m[i].0 != #[trigger] m[j].0 by {
                if j == k {
                    assert(m[i] == tables_model(before)[i]);
                    assert(!(0 <= i < tables_model(before).len() && tables_model(before)[i].0 == name@));
                } else {
                    assert(m[i] == tables_model(before)[i] && m[j] == tables_model(before)[j]);
                }
            }
            assert forall|i: int| 0 <= i < m.len() implies table_wf(#[trigger] m[i].1) by {
                if i < k {
                    assert(m[i] == tables_model(before)[i]);
                }
            }
        }
        Ok(())
    }
}

/// Whether the schema's metadata fits in page 0.
pub fn schema_fits(columns: &Vec<Column>) -> (b: bool)
    ensures
        b == metadata_fits(columns_model(columns@)),
{
    let cb = encode_columns(columns);
    cb.len() <= PAGE_SIZE - 8
}

} // verus!

verus! {

/// Whether a value has the column's type.
pub open spec fn type_ok(dt: DataType, v: ValueModel) -> bool {
    match dt {
        DataType::Integer => v is Integer,
        DataType::Text => v is Text,
    }
}

/// The first position whose value does not have its column's type.
pub open spec fn first_mismatch(cols: Seq<ColumnModel>, vals: Seq<ValueModel>, i: nat) -> Option<nat>
    decreases cols.len() - i,
{
    if i >= cols.len() || i >= vals.len() {
        None
    } else if !type_ok(cols[i as int].data_type, vals[i as int]) {
        Some(i)
    } else {
        first_mismatch(cols, vals, i + 1)
    }
}

proof fn lemma_first_mismatch(cols: Seq<ColumnModel>, vals: Seq<ValueModel>, k: nat)
    ensures
        first_mismatch(cols, vals, k) matches Some(i) ==> k <= i < cols.len() && i < vals.len()
            && !type_ok(cols[i as int].data_type, vals[i as int]),
    decreases cols.len() - k,
{
    if k < cols.len() && k < vals.len() && type_ok(cols[k as int].data_type, vals[k as int]) {
        lemma_first_mismatch(cols, vals, k + 1);
    }
}

/// The B+Tree key of a row: the value of the first INTEGER column holding an
/// integer, from position `i` on; 0 if there is none.
pub open spec fn key_from(cols: Seq<ColumnModel>, vals: Seq<ValueModel>, i: nat) -> i64
    decreases cols.len() - i,
{
    if i >= cols.len() || i >= vals.len() {
        0
    } else if cols[i as int].data_type == DataType::Integer && vals[i as int] is Integer {
        vals[i as int]->Integer_0
    } else {
        key_from(cols, vals, i + 1)
    }
}

pub open spec fn type_label(dt: DataType) -> Seq<char> {
    match dt {
        DataType::Integer => "Integer"@,
        DataType::Text => "Text"@,
    }
}

/// What `{:?}` prints for a value.
pub open spec fn value_debug(v: ValueModel) -> Seq<char> {
    match v {
        ValueModel::Integer(n) => "Integer("@ + int_text(n as int) + ")"@,
        ValueModel::Text(s) => "Text("@ + debug_quoted(s) + ")"@,
        ValueModel::Null => "Null"@,
    }
}

pub open spec fn count_msg(ncols: nat, nvals: nat) -> Seq<char> {
    "Expected "@ + decimal(ncols) + " values, got "@ + decimal(nvals) + "."@
}

pub open spec fn type_msg(c: ColumnModel, i: nat, v: ValueModel) -> Seq<char> {
    "Column '"@ + c.name + "' (position "@ + decimal(i) + ") expects "@ + type_label(c.data_type)
        + ", got "@ + value_debug(v) + "."@
}

pub open spec fn too_large_msg(size: nat) -> Seq<char> {
    "Row too large ("@ + decimal(size) + " bytes). Maximum row size is "@ + decimal(
        max_row_size() as nat,
    ) + " bytes."@
}

/// The largest serialized row a table accepts.
pub open spec fn max_row_size() -> int {
    (PAGE_SIZE - crate::btree::LEAF_HEADER_SIZE) / 2 - crate::btree::SLOT_SIZE - crate::btree::KEY_SIZE
}

/// Extract the B+Tree key from the row values.
/// Uses the first INTEGER column; falls back to a 0 key if none exists.
pub fn extract_key(columns: &[Column], values: &[Value]) -> (r: Result<i64, String>)
    ensures
        r == Ok::<i64, String>(key_from(columns_model(columns@), values_model(values@), 0)),
{
    let ghost cols = columns_model(columns@);
    let ghost vals = values_model(values@);
    let mut i: usize = 0;
    while i < columns.len() && i < values.len()
        invariant
            cols == columns_model(columns@),
            vals == values_model(values@),
            i <= columns@.len(),
            key_from(cols, vals, 0) == key_from(cols, vals, i as nat),
        decreases columns@.len() - i,
    {
        assert(cols[i as int] == columns@[i as int]@);
        assert(vals[i as int] == values@[i as int]@);
        if columns[i].data_type == DataType::Integer {
            if let Value::Integer(n) = &values[i] {
                return Ok(*n);
            }
        }
        i = i + 1;
    }
    Ok(0)
}

/// The first value whose type does not match its column, or `None`.
fn find_mismatch(columns: &Vec<Column>, values: &Vec<Value>) -> (r: Option<usize>)
    ensures
        match r {
            Some(i) => first_mismatch(columns_model(columns@), values_model(values@), 0) == Some(i as nat),
            None => first_mismatch(columns_model(columns@), values_model(values@), 0) is None,
        },
{
    let ghost cols = columns_model(columns@);
    let ghost vals = values_model(values@);
    let mut i: usize = 0;
    while i < columns.len() && i < values.len()
        invariant
            cols == columns_model(columns@),
            vals == values_model(values@),
            i <= columns@.len(),
            first_mismatch(cols, vals, 0) == first_mismatch(cols, vals, i as nat),
        decreases columns@.len() - i,
    {
        assert(cols[i as int] == columns@[i as int]@);
        assert(vals[i as int] == values@[i as int]@);
        let ok = match (columns[i].data_type, &values[i]) {
            (DataType::Integer, Value::Integer(_)) => true,
            (DataType::Text, Value::Text(_)) => true,
            _ => false,
        };
        if !ok {
            return Some(i);
        }
        i = i + 1;
    }
    None
}

fn value_debug_string(v: &Value) -> (s: String)
    ensures
        s@ == value_debug(v@),
{
    match v {
        Value::Integer(n) => {
            let mut s = String::from_str("Integer(");
            s.append(int_string(*n).as_str());
            s.append(")");
            s
        },
        Value::Text(t) => {
            let mut s = String::from_str("Text(");
            s.append(debug_string(t.as_str()).as_str());
            s.append(")");
            s
        },
        Value::Null => String::from_str("Null"),
    }
}

fn type_msg_string(c: &Column, i: usize, v: &Value) -> (s: String)
    ensures
        s@ == type_msg(c@, i as nat, v@),
{
    let mut s = String::from_str("Column '");
    s.append(c.name.as_str());
    s.append("' (position ");
    s.append(decimal_string(i as u64).as_str());
    s.append(") expects ");
    match c.data_type {
        DataType::Integer => s.append("Integer"),
        DataType::Text => s.append("Text"),
    }
    s.append(", got ");
    s.append(value_debug_string(v).as_str());
    s.append(".");
    s
}

fn count_msg_string(ncols: usize, nvals: usize) -> (s: String)
    ensures
        s@ == count_msg(ncols as nat, nvals as nat),
{
    let mut s = String::from_str("Expected ");
    s.append(decimal_string(ncols as u64).as_str());
    s.append(" values, got ");
    s.append(decimal_string(nvals as u64).as_str());
    s.append(".");
    s
}

fn too_large_string(size: u128) -> (s: String)
    ensures
        s@ == too_large_msg(size as nat),
{
    let mut s = String::from_str("Row too large (");
    s.append(decimal_string_wide(size).as_str());
    s.append(" bytes). Maximum row size is ");
    s.append(decimal_string(max_row_data_size() as u64).as_str());
    s.append(" bytes.");
    s
}

fn zero_bytes(n: usize) -> (v: Vec<u8>)
    ensures
        v@.len() == n,
{
    let mut v: Vec<u8> = Vec::with_capacity(n);
    let mut i: usize = 0;
    while i < n
        invariant
            i <= n,
            v@.len() == i,
        decreases n - i,
    {
        v.push(0);
        i = i + 1;
    }
    v
}

/// Every table but the `i`-th is as it was; the `i`-th keeps its name and
/// schema and stays sound.
pub open spec fn only_table_changed(m1: Seq<(Seq<char>, TableModel)>, m2: Seq<(Seq<char>, TableModel)>, i: int) -> bool {
    &&& m2.len() == m1.len()
    &&& forall|j: int| 0 <= j < m1.len() && j != i ==> #[trigger] m2[j] == m1[j]
    &&& m2[i].0 == m1[i].0
    &&& m2[i].1.columns == m1[i].1.columns
    &&& m2[i].1.pager.in_transaction == m1[i].1.pager.in_transaction
}

/// The model of a result without a value: `Ok` or the error text.
pub open spec fn unit_result(r: Result<(), String>) -> Result<(), Seq<char>> {
    match r {
        Ok(_) => Ok(()),
        Err(e) => Err(e@),
    }
}

/// What inserting `vals` into table `name` of `m1` does, ending in `m2`
/// with result `r`: the checks in order (table, value count, types, row
/// size), each failure leaving the storage as it was; past them, only that
/// table changes, and outside a transaction a successful insert leaves no
/// uncommitted page, inside one it commits nothing. On a table whose tree is
/// sound, a successful insert keeps it sound and a select then reads the new
/// row besides what it read before; on one in key order, an insert of a key
/// it does not hold keeps the key order.
pub open spec fn insert_outcome(
    m1: Seq<(Seq<char>, TableModel)>,
    m2: Seq<(Seq<char>, TableModel)>,
    name: Seq<char>,
    vals: Seq<ValueModel>,
    r: Result<(), Seq<char>>,
) -> bool {
    &&& !has_table(m1, name) ==> r == Err::<(), Seq<char>>(not_found_msg(name)) && m2 == m1
    &&& has_table(m1, name) ==> {
        let t = table_of(m1, name);
        &&& vals.len() != t.columns.len() ==> r == Err::<(), Seq<char>>(count_msg(t.columns.len(), vals.len()))
            && m2 == m1
        &&& vals.len() == t.columns.len() ==> match first_mismatch(t.columns, vals, 0) {
            Some(i) => r == Err::<(), Seq<char>>(type_msg(t.columns[i as int], i, vals[i as int])) && m2 == m1,
            None => {
                &&& crate::row::row_size(t.columns, vals) > max_row_size() ==> r == Err::<(), Seq<char>>(
                    too_large_msg(crate::row::row_size(t.columns, vals) as nat),
                ) && m2 == m1
                &&& only_table_changed(m1, m2, table_index(m1, name))
                &&& crate::row::row_size(t.columns, vals) <= max_row_size() && crate::btree::insert_owed(
                    t.pager,
                    t.root_page as int,
                    key_from(t.columns, vals, 0),
                    encode_row(t.columns, vals),
                ) ==> r is Ok
            },
        }
        &&& r is Ok ==> {
            let t2 = table_of(m2, name);
            &&& vals.len() == t.columns.len()
            &&& first_mismatch(t.columns, vals, 0) is None
            &&& crate::row::row_size(t.columns, vals) <= max_row_size()
            &&& !t.pager.in_transaction ==> forall|n: int| !#[trigger] t2.pager.is_dirty(n)
            &&& t.pager.in_transaction ==> t2.pager.disk == t.pager.disk
            &&& table_tree_ok(t) ==> table_tree_ok(t2) && row_selected(select_result(t), select_result(t2), vals)
            &&& table_tree_ok(t) && root_recorded(t) ==> root_recorded(t2)
            &&& table_sorted(t) && crate::order::key_absent(t.pager, t.root_page as int, key_from(t.columns, vals, 0))
                ==> table_sorted(t2)
            &&& crate::order::one_leaf_in_order(t.pager, t.root_page as int) && crate::btree::leaf_has_room(
                t.pager.page(t.root_page as int),
                encode_row(t.columns, vals).len() as int,
            ) ==> crate::order::one_leaf_in_order(t2.pager, t2.root_page as int)
        }
    }
}

impl Storage {
    /// Insert a row into a table. The row is type-checked against the
    /// schema, keyed by its first INTEGER column, serialized and put in the
    /// table's B+Tree; outside a transaction the change is committed at once.
    pub fn insert(&mut self, table_name: &str, values: Vec<Value>) -> (r: Result<(), String>)
        requires
            old(self).wf(),
        ensures
            final(self).wf(),
            insert_outcome(old(self)@, final(self)@, table_name@, values_model(values@), unit_result(r)),
    {
        let idx = match self.find(table_name) {
            Some(i) => i,
            None => return Err(quoted_name_msg("Table '", table_name, "' not found.")),
        };
        let ghost m = self@;
        let ghost t = m[idx as int].1;
        let ghost vals = values_model(values@);
        assert(m[idx as int] == (self.tables@[idx as int].0@, self.tables@[idx as int].1@));
        let ncols = self.tables[idx].1.columns.len();
        if values.len() != ncols {
            return Err(count_msg_string(ncols, values.len()));
        }
        // Type-check.
        match find_mismatch(&self.tables[idx].1.columns, &values) {
            Some(i) => {
                proof {
                    lemma_first_mismatch(t.columns, vals, 0);
                }
                assert(t.columns[i as int] == self.tables@[idx as int].1.columns@[i as int]@);
                assert(vals[i as int] == values@[i as int]@);
                return Err(type_msg_string(&self.tables[idx].1.columns[i], i, &values[i]));
            },
            None => {},
        }
        // Extract the key (first INTEGER column value).
        let key = match extract_key(self.tables[idx].1.columns.as_slice(), values.as_slice()) {
            Ok(k) => k,
            Err(e) => return Err(e),
        };
        let row = Row { values };
        proof {
            lemma_columns_meta_len(t.columns);
        }
        let wide = crate::row::row_size_wide(&row, self.tables[idx].1.columns.as_slice());
        if wide > max_row_data_size() as u128 {
            return Err(too_large_string(wide));
        }
        let size = wide as usize;
        let mut buf = zero_bytes(size);
        let ghost zeros = buf@;
        crate::row::serialize(&row, self.tables[idx].1.columns.as_slice(), &mut buf);
        proof {
            let enc = encode_row(t.columns, vals);
            assert(row@ == vals);
            lemma_typed_row_roundtrip(t.columns, vals);
            assert(zeros.len() == enc.len());
            assert(buf@ =~= enc);
        }
        // B+Tree insert.
        let (tname, mut store) = self.tables.remove(idx);
        let ghost before_store = store@;
        let result = crate::btree::insert(&mut store.pager, store.root_page, key, buf.as_slice());
        let ghost p2 = store.pager@;
        let outcome: Result<(), String> = match result {
            Ok(new_root) => {
                if new_root != store.root_page {
                    store.root_page = new_root;
                    let _ = write_metadata(&mut store.pager, new_root, &store.columns);
                    proof {
                        let cols = columns_model(store.columns@);
                        lemma_columns_meta_len(cols);
                        crate::pager::lemma_page_len(p2, 0);
                        crate::bytes::lemma_splice(p2.page(0), 0, metadata(new_root, cols));
                        lemma_root_of_prefix(store.pager@.page(0), new_root, cols);
                        if crate::shape::tree_ok(p2, new_root as int) && crate::btree::leftmost_leaf(
                            p2,
                            new_root as int,
                            p2.file_pages,
                        ) != Some(0int) {
                            crate::shape::lemma_tree_frame(p2, store.pager@, new_root as int);
                        }
                        if crate::order::sorted_tree(p2, new_root as int) && crate::btree::leftmost_leaf(
                            p2,
                            new_root as int,
                            p2.file_pages,
                        ) != Some(0int) {
                            crate::order::lemma_sorted_frame(p2, store.pager@, new_root as int);
                        }
                    }
                }
                let ghost p3 = store.pager@;
                if !store.pager.in_transaction() {
                    let _ = store.pager.flush();
                    proof {
                        if crate::shape::tree_ok(p3, new_root as int) && crate::btree::leftmost_leaf(
                            p3,
                            new_root as int,
                            p3.file_pages,
                        ) != Some(0int) {
                            crate::shape::lemma_tree_frame(p3, store.pager@, new_root as int);
                        }
                        if crate::order::sorted_tree(p3, new_root as int) && crate::btree::leftmost_leaf(
                            p3,
                            new_root as int,
                            p3.file_pages,
                        ) != Some(0int) {
                            crate::order::lemma_sorted_frame(p3, store.pager@, new_root as int);
                        }
                    }
                }
                proof {
                    if table_tree_ok(before_store) {
                        let raws = crate::btree::scan_rows(before_store.pager, before_store.root_page as int).unwrap();
                        let i = choose|i: int|
                            0 <= i <= raws.len() && crate::btree::scan_rows(p2, new_root as int).unwrap()
                                == #[trigger] raws.insert(i, buf@);
                        lemma_select_after_insert(before_store, store@, raws, i, buf@, vals);
                    }
                    if table_sorted(before_store) && crate::order::key_absent(
                        before_store.pager,
                        before_store.root_page as int,
                        key_from(before_store.columns, vals, 0),
                    ) {
                        crate::order::lemma_sorted_is_sound(before_store.pager, before_store.root_page as int);
                        let c1 = crate::order::scan_cells(before_store.pager, before_store.root_page as int).unwrap();
                        let ci = choose|ci: int|
                            0 <= ci <= c1.len() && crate::order::scan_cells(p2, new_root as int).unwrap()
                                == #[trigger] c1.insert(ci, (key, buf@));
                        lemma_cells_keyed_insert(c1, ci, (key, buf@), before_store.columns, vals, row_size(before_store.columns, vals));
                    }
                    if crate::order::one_leaf_in_order(before_store.pager, before_store.root_page as int)
                        && crate::btree::leaf_has_room(
                        before_store.pager.page(before_store.root_page as int),
                        buf@.len() as int,
                    ) {
                        assert(new_root == before_store.root_page);
                        assert(store.pager@.page(new_root as int) == p2.page(new_root as int));
                    }
                }
                Ok(())
            },
            Err(e) => Err(e),
        };
        let ghost after = store@;
        self.tables.insert(idx, (tname, store));
        proof {
            let m2 = self@;
            assert(m2 =~= m.update(idx as int, (m[idx as int].0, after)));
            assert forall|i: int, j: int| 0 <= i < j < m2.len() implies #[trigger] m2[i].0 != #[trigger] m2[j].0 by {
                assert(m2[i].0 == m[i].0 && m2[j].0 == m[j].0);
            }
            assert forall|i: int| 0 <= i < m2.len() implies table_wf(#[trigger] m2[i].1) by {
                if i != idx {
                    assert(m2[i] == m[i]);
                }
            }
            lemma_table_index(m2, idx as int);
        }
        outcome
    }
}


} // verus!

verus! {

/// The names of a schema's columns.
pub open spec fn column_names(cols: Seq<ColumnModel>) -> Seq<Seq<char>> {
    cols.map_values(|c: ColumnModel| c.name)
}

/// Whether every raw row decodes against the schema.
pub open spec fn all_decode(raws: Seq<Seq<u8>>, cols: Seq<ColumnModel>) -> bool {
    forall|k: int| 0 <= k < raws.len() ==> (#[trigger] crate::row::decode_row(raws[k], cols)) is Some
}

/// The rows a table's raw rows decode to.
pub open spec fn decoded_rows(raws: Seq<Seq<u8>>, cols: Seq<ColumnModel>) -> Seq<Seq<ValueModel>> {
    raws.map_values(|r: Seq<u8>| crate::row::decode_row(r, cols).unwrap().0)
}

/// The models of a list of rows.
pub open spec fn rows_values(rows: Seq<Row>) -> Seq<Seq<ValueModel>> {
    rows.map_values(|r: Row| r@)
}

pub open spec fn corrupt_row_msg() -> Seq<char> {
    "Corrupt row data."@
}

/// What selecting every row of table `t` gives: the column names and the
/// decoded rows in scan order, or why it cannot be read.
pub open spec fn select_result(t: TableModel) -> Result<(Seq<Seq<char>>, Seq<Seq<ValueModel>>), Option<Seq<char>>> {
    match crate::btree::scan_rows(t.pager, t.root_page as int) {
        None => Err(None),
        Some(raws) => if all_decode(raws, t.columns) {
            Ok((column_names(t.columns), decoded_rows(raws, t.columns)))
        } else {
            Err(Some(corrupt_row_msg()))
        },
    }
}

/// The table's B+Tree is sound.
pub open spec fn table_tree_ok(t: TableModel) -> bool {
    &&& crate::shape::tree_ok(t.pager, t.root_page as int)
    &&& crate::btree::leftmost_leaf(t.pager, t.root_page as int, t.pager.file_pages) != Some(0int)
}

/// Each cell is keyed by the row it holds: its key is the row's key.
pub open spec fn cells_keyed(c: Seq<(i64, Seq<u8>)>, cols: Seq<ColumnModel>) -> bool {
    forall|g: int|
        0 <= g < c.len() ==> match decode_row((#[trigger] c[g]).1, cols) {
            Some((v, _)) => c[g].0 == key_from(cols, v, 0),
            None => true,
        }
}

/// The table's tree keeps its keys in order, each cell keyed by its row.
pub open spec fn table_sorted(t: TableModel) -> bool {
    &&& crate::order::sorted_tree(t.pager, t.root_page as int)
    &&& crate::btree::leftmost_leaf(t.pager, t.root_page as int, t.pager.file_pages) != Some(0int)
    &&& crate::order::scan_cells(t.pager, t.root_page as int) is Some
    &&& cells_keyed(crate::order::scan_cells(t.pager, t.root_page as int).unwrap(), t.columns)
}

/// A select of a table whose tree keeps its keys in order reads its rows in
/// strictly increasing key order.
pub proof fn lemma_select_in_key_order(t: TableModel)
    requires
        table_wf(t),
        table_sorted(t),
        select_result(t) is Ok,
    ensures
        forall|i: int, j: int|
            0 <= i < j < select_result(t)->Ok_0.1.len() ==> key_from(t.columns, select_result(t)->Ok_0.1[i], 0)
                < key_from(t.columns, select_result(t)->Ok_0.1[j], 0),
{
    let root = t.root_page as int;
    let cols = t.columns;
    crate::order::lemma_scan_in_key_order(t.pager, root);
    let c = crate::order::scan_cells(t.pager, root).unwrap();
    let raws = crate::btree::cell_rows(c);
    let rows = select_result(t)->Ok_0.1;
    assert(crate::btree::scan_rows(t.pager, root) == Some(raws));
    assert(all_decode(raws, cols));
    assert(rows == decoded_rows(raws, cols));
    assert forall|i: int| 0 <= i < rows.len() implies key_from(cols, #[trigger] rows[i], 0) == c[i].0 by {
        assert(raws[i] == c[i].1);
        assert(decode_row(raws[i], cols) is Some);
    }
    assert forall|i: int, j: int| 0 <= i < j < rows.len() implies key_from(cols, rows[i], 0) < key_from(cols, rows[j], 0) by {
        assert(key_from(cols, rows[i], 0) == c[i].0);
        assert(key_from(cols, rows[j], 0) == c[j].0);
    }
}

/// A key that no row a select reads has is held by no cell of a table in
/// key order: an insert of a row with that key keeps the key order.
pub proof fn lemma_fresh_key_absent(t: TableModel, k: i64)
    requires
        table_wf(t),
        table_sorted(t),
        select_result(t) is Ok,
        forall|i: int|
            0 <= i < select_result(t)->Ok_0.1.len() ==> key_from(t.columns, #[trigger] select_result(t)->Ok_0.1[i], 0)
                != k,
    ensures
        crate::order::key_absent(t.pager, t.root_page as int, k),
{
    let root = t.root_page as int;
    let cols = t.columns;
    crate::order::lemma_scan_in_key_order(t.pager, root);
    let c = crate::order::scan_cells(t.pager, root).unwrap();
    let raws = crate::btree::cell_rows(c);
    let rows = select_result(t)->Ok_0.1;
    assert(rows == decoded_rows(raws, cols));
    assert forall|g: int| 0 <= g < c.len() implies (#[trigger] c[g]).0 != k by {
        assert(raws[g] == c[g].1);
        assert(decode_row(raws[g], cols) is Some);
        assert(key_from(cols, rows[g], 0) != k);
    }
}

proof fn lemma_cells_keyed_insert(
    c: Seq<(i64, Seq<u8>)>,
    i: int,
    x: (i64, Seq<u8>),
    cols: Seq<ColumnModel>,
    vals: Seq<ValueModel>,
    n: int,
)
    requires
        cells_keyed(c, cols),
        0 <= i <= c.len(),
        decode_row(x.1, cols) == Some((vals, n)),
        x.0 == key_from(cols, vals, 0),
    ensures
        cells_keyed(c.insert(i, x), cols),
{
    let d = c.insert(i, x);
    assert forall|g: int| 0 <= g < d.len() implies match decode_row((#[trigger] d[g]).1, cols) {
        Some((v, _)) => d[g].0 == key_from(cols, v, 0),
        None => true,
    } by {
        if g < i {
            assert(d[g] == c[g]);
        } else if g > i {
            assert(d[g] == c[g - 1]);
        }
    }
}

/// Page 0 records the table's root page.
pub open spec fn root_recorded(t: TableModel) -> bool {
    u32_at(t.pager.page(0), 0) == t.root_page
}

/// A page that starts with a table's metadata records its root.
proof fn lemma_root_of_prefix(p: Seq<u8>, root: u32, cols: Seq<ColumnModel>)
    requires
        p.len() >= metadata(root, cols).len(),
        p.subrange(0, metadata(root, cols).len() as int) == metadata(root, cols),
    ensures
        u32_at(p, 0) == root,
{
    lemma_le_roundtrip();
    let m = metadata(root, cols);
    assert(p.subrange(0, 4) =~= m.subrange(0, 4));
    assert(m.subrange(0, 4) =~= spec_u32_to_le_bytes(root));
}

/// A select after an insert of `vals`: where the select before gave rows,
/// it gives the same column names and those rows with `vals` added at some
/// position; where it failed, it fails the same way.
pub open spec fn row_selected(
    before: Result<(Seq<Seq<char>>, Seq<Seq<ValueModel>>), Option<Seq<char>>>,
    after: Result<(Seq<Seq<char>>, Seq<Seq<ValueModel>>), Option<Seq<char>>>,
    vals: Seq<ValueModel>,
) -> bool {
    &&& before is Ok ==> exists|i: int|
        0 <= i <= before->Ok_0.1.len() && after == Ok::<(Seq<Seq<char>>, Seq<Seq<ValueModel>>), Option<Seq<char>>>(
            (before->Ok_0.0, #[trigger] before->Ok_0.1.insert(i, vals)),
        )
    &&& before is Err ==> after == before
}

proof fn lemma_cells_size_bounds(cols: Seq<ColumnModel>, vals: Seq<ValueModel>, n: nat)
    requires
        n <= cols.len(),
        n <= vals.len(),
    ensures
        cells_size(cols, vals, n) >= 0,
        forall|i: int| 0 <= i < n ==> #[trigger] cell_size(cols[i].data_type, vals[i]) <= cells_size(cols, vals, n),
    decreases n,
{
    if n > 0 {
        lemma_cells_size_bounds(cols, vals, (n - 1) as nat);
    }
}

proof fn lemma_no_mismatch(cols: Seq<ColumnModel>, vals: Seq<ValueModel>, k: nat)
    requires
        cols.len() == vals.len(),
        first_mismatch(cols, vals, k) is None,
    ensures
        forall|i: int| k <= i < cols.len() ==> type_ok(cols[i].data_type, #[trigger] vals[i]),
    decreases cols.len() - k,
{
    if k < cols.len() {
        lemma_no_mismatch(cols, vals, k + 1);
    }
}

/// A row whose values all have their columns' types, and whose encoding
/// fits a `u32` length, decodes back to itself.
pub proof fn lemma_typed_row_roundtrip(cols: Seq<ColumnModel>, vals: Seq<ValueModel>)
    requires
        cols.len() == vals.len(),
        first_mismatch(cols, vals, 0) is None,
        row_size(cols, vals) <= u32::MAX,
    ensures
        decode_row(encode_row(cols, vals), cols) == Some((vals, row_size(cols, vals))),
        encode_row(cols, vals).len() == row_size(cols, vals),
{
    lemma_no_mismatch(cols, vals, 0);
    lemma_cells_size_bounds(cols, vals, cols.len());
    assert(texts_fit(vals)) by {
        assert forall|i: int| 0 <= i < vals.len() implies match #[trigger] vals[i] {
            ValueModel::Text(s) => encode_utf8(s).len() <= u32::MAX,
            _ => true,
        } by {
            assert(type_ok(cols[i].data_type, vals[i]));
            assert(cell_size(cols[i].data_type, vals[i]) <= row_size(cols, vals));
        }
    }
    lemma_row_roundtrip(cols, vals, Seq::empty());
    assert(encode_row(cols, vals) + Seq::<u8>::empty() =~= encode_row(cols, vals));
    assert(Seq::new(cols.len(), |i: int| stored_value(cols[i].data_type, vals[i])) =~= vals) by {
        assert forall|i: int| 0 <= i < cols.len() implies stored_value(cols[i].data_type, vals[i]) == vals[i] by {
            assert(type_ok(cols[i].data_type, vals[i]));
        }
    }
}

proof fn lemma_row_selected_ok(names: Seq<Seq<char>>, rows: Seq<Seq<ValueModel>>, i: int, vals: Seq<ValueModel>)
    requires
        0 <= i <= rows.len(),
    ensures
        row_selected(
            Ok::<(Seq<Seq<char>>, Seq<Seq<ValueModel>>), Option<Seq<char>>>((names, rows)),
            Ok::<(Seq<Seq<char>>, Seq<Seq<ValueModel>>), Option<Seq<char>>>((names, rows.insert(i, vals))),
            vals,
        ),
{
    let b = Ok::<(Seq<Seq<char>>, Seq<Seq<ValueModel>>), Option<Seq<char>>>((names, rows));
    let a = Ok::<(Seq<Seq<char>>, Seq<Seq<ValueModel>>), Option<Seq<char>>>((names, rows.insert(i, vals)));
    assert(b is Ok);
    assert(b->Ok_0.1 == rows);
    assert(b->Ok_0.0 == names);
    assert(a == Ok::<(Seq<Seq<char>>, Seq<Seq<ValueModel>>), Option<Seq<char>>>((b->Ok_0.0, b->Ok_0.1.insert(i, vals))));
    assert(0 <= i <= b->Ok_0.1.len());
    assert(row_selected(b, a, vals));
}

/// What a select reads once a raw row that decodes to `vals` is added to
/// the rows a table's scan reads.
proof fn lemma_select_after_insert(
    t1: TableModel,
    t2: TableModel,
    raws: Seq<Seq<u8>>,
    i: int,
    raw: Seq<u8>,
    vals: Seq<ValueModel>,
)
    requires
        crate::btree::scan_rows(t1.pager, t1.root_page as int) == Some(raws),
        crate::btree::scan_rows(t2.pager, t2.root_page as int) == Some(raws.insert(i, raw)),
        0 <= i <= raws.len(),
        t2.columns == t1.columns,
        decode_row(raw, t1.columns) matches Some((v, _)) && v == vals,
    ensures
        row_selected(select_result(t1), select_result(t2), vals),
{
    let cols = t1.columns;
    let raws2 = raws.insert(i, raw);
    if all_decode(raws, cols) {
        assert forall|k: int| 0 <= k < raws2.len() implies (#[trigger] decode_row(raws2[k], cols)) is Some by {
            if k < i {
                assert(raws2[k] == raws[k]);
            } else if k > i {
                assert(raws2[k] == raws[k - 1]);
            }
        }
        assert(decoded_rows(raws2, cols) =~= decoded_rows(raws, cols).insert(i, vals));
        assert(select_result(t2) == Ok::<(Seq<Seq<char>>, Seq<Seq<ValueModel>>), Option<Seq<char>>>(
            (column_names(cols), decoded_rows(raws, cols).insert(i, vals)),
        ));
        assert(select_result(t1) == Ok::<(Seq<Seq<char>>, Seq<Seq<ValueModel>>), Option<Seq<char>>>(
            (column_names(cols), decoded_rows(raws, cols)),
        ));
        lemma_row_selected_ok(column_names(cols), decoded_rows(raws, cols), i, vals);
    } else {
        let k = choose|k: int| 0 <= k < raws.len() && !(#[trigger] decode_row(raws[k], cols) is Some);
        if k < i {
            assert(raws2[k] == raws[k]);
            assert(!(decode_row(raws2[k], cols) is Some));
        } else {
            assert(raws2[k + 1] == raws[k]);
            assert(!(decode_row(raws2[k + 1], cols) is Some));
        }
        assert(!all_decode(raws2, cols));
        assert(select_result(t2) == select_result(t1));
        assert(row_selected(select_result(t1), select_result(t2), vals));
    }
}

fn column_name_list(columns: &Vec<Column>) -> (names: Vec<String>)
    ensures
        crate::protocol::strings_model(names@) == column_names(columns_model(columns@)),
{
    let mut names: Vec<String> = Vec::new();
    let mut i: usize = 0;
    while i < columns.len()
        invariant
            i <= columns@.len(),
            names@.len() == i,
            forall|k: int| 0 <= k < i ==> #[trigger] names@[k]@ == columns@[k].name@,
        decreases columns@.len() - i,
    {
        names.push(columns[i].name.clone());
        i = i + 1;
    }
    assert(crate::protocol::strings_model(names@) =~= column_names(columns_model(columns@)));
    names
}

impl Storage {
    /// All rows of a table, in key order, with the column names.
    pub fn select_all(&self, table_name: &str) -> (r: Result<(Vec<String>, Vec<Row>), String>)
        requires
            self.wf(),
        ensures
            !has_table(self@, table_name@) ==> (r matches Err(e) && e@ == not_found_msg(table_name@)),
            has_table(self@, table_name@) ==> match r {
                Ok((headers, rows)) => select_result(table_of(self@, table_name@)) == Ok::<
                    (Seq<Seq<char>>, Seq<Seq<ValueModel>>),
                    Option<Seq<char>>,
                >((crate::protocol::strings_model(headers@), rows_values(rows@))),
                Err(e) => select_result(table_of(self@, table_name@)) matches Err(why) && (why matches Some(
                    msg,
                ) ==> msg == e@),
            },
    {
        let idx = match self.find(table_name) {
            Some(i) => i,
            None => return Err(quoted_name_msg("Table '", table_name, "' not found.")),
        };
        let store = &self.tables[idx].1;
        let ghost t = store@;
        assert(self@[idx as int] == (self.tables@[idx as int].0@, store@));
        let raw = match crate::btree::scan_all(&store.pager, store.root_page) {
            Ok(rows) => rows,
            Err(e) => return Err(e),
        };
        let ghost raws = crate::btree::rows_model(raw@);
        assert(table_of(self@, table_name@) == t);
        let headers = column_name_list(&store.columns);
        let mut rows: Vec<Row> = Vec::new();
        let mut i: usize = 0;
        while i < raw.len()
            invariant
                i <= raw@.len(),
                raws == crate::btree::rows_model(raw@),
                t.columns == columns_model(store.columns@),
                has_table(self@, table_name@),
                table_of(self@, table_name@) == t,
                crate::btree::scan_rows(t.pager, t.root_page as int) == Some(raws),
                rows@.len() == i,
                forall|k: int| 0 <= k < i ==> (#[trigger] crate::row::decode_row(raws[k], t.columns)) is Some,
                forall|k: int| 0 <= k < i ==> (#[trigger] rows@[k])@ == crate::row::decode_row(raws[k], t.columns).unwrap().0,
            decreases raw@.len() - i,
        {
            assert(raws[i as int] == raw@[i as int]@);
            if !crate::row::row_decodes(raw[i].as_slice(), store.columns.as_slice()) {
                return Err(String::from_str("Corrupt row data."));
            }
            let row = crate::row::deserialize(raw[i].as_slice(), store.columns.as_slice());
            rows.push(row);
            i = i + 1;
        }
        assert(rows_values(rows@) =~= decoded_rows(raws, t.columns));
        Ok((headers, rows))
    }

    /// Dump the B+Tree structure for a table as a human-readable string.
    pub fn dump_btree(&self, table_name: &str) -> (r: Result<String, String>)
        requires
            self.wf(),
        ensures
            !has_table(self@, table_name@) ==> (r matches Err(e) && e@ == not_found_msg(table_name@)),
            has_table(self@, table_name@) ==> {
                let t = table_of(self@, table_name@);
                match r {
                    Ok(s) => crate::btree::tree_dump(t.pager, t.root_page, 0, crate::pager::MAX_PAGES as nat) == Some(s@),
                    Err(_) => crate::btree::tree_dump(t.pager, t.root_page, 0, crate::pager::MAX_PAGES as nat) is None,
                }
            },
    {
        let idx = match self.find(table_name) {
            Some(i) => i,
            None => return Err(quoted_name_msg("Table '", table_name, "' not found.")),
        };
        let store = &self.tables[idx].1;
        assert(self@[idx as int] == (self.tables@[idx as int].0@, store@));
        crate::btree::dump_tree(&store.pager, store.root_page, 0)
    }
}

} // verus!

verus! {

/// `b` is pager `a` after a commit.
pub open spec fn pager_committed(a: PagerModel, b: PagerModel) -> bool {
    &&& crate::pager::pager_wf(b)
    &&& b.disk == crate::pager::committed_after(a)
    &&& b.file_pages == a.file_pages
    &&& forall|n: int| #[trigger] b.page(n) == a.page(n)
    &&& forall|n: int| !#[trigger] b.is_dirty(n)
    &&& !b.in_transaction
    &&& b.txn_id == a.txn_id.wrapping_add(1)
    &&& b.pending == a.pending.push((a.txn_id, crate::pager::dirty_pages(a, a.pages.len())))
}

/// `b` is pager `a` after a rollback.
pub open spec fn pager_rolled_back(a: PagerModel, b: PagerModel) -> bool {
    &&& crate::pager::pager_wf(b)
    &&& b.disk == a.disk
    &&& b.file_pages == a.disk.len()
    &&& forall|n: int| #[trigger] b.page(n) == a.committed_page(n)
    &&& forall|n: int| !#[trigger] b.is_dirty(n)
    &&& !b.in_transaction
    &&& b.txn_id == a.txn_id
    &&& b.pending == a.pending
}

/// `m2` is `m1` with each table changed as `step` says, names and schemas kept.
pub open spec fn each_table(
    m1: Seq<(Seq<char>, TableModel)>,
    m2: Seq<(Seq<char>, TableModel)>,
    step: spec_fn(TableModel, TableModel) -> bool,
) -> bool {
    &&& m2.len() == m1.len()
    &&& forall|i: int|
        0 <= i < m1.len() ==> (#[trigger] m2[i]).0 == m1[i].0 && m2[i].1.columns == m1[i].1.columns
            && step(m1[i].1, m2[i].1)
}

/// `b` is table `a` once a transaction began.
pub open spec fn began(a: TableModel, b: TableModel) -> bool {
    b == (TableModel { pager: PagerModel { in_transaction: true, ..a.pager }, ..a })
}

/// `b` is table `a` once its transaction committed.
pub open spec fn committed(a: TableModel, b: TableModel) -> bool {
    pager_committed(a.pager, b.pager) && b.root_page == a.root_page
}

/// After a rollback the root page is read again from the committed metadata.
pub open spec fn rolled_back(a: TableModel, b: TableModel) -> bool {
    pager_rolled_back(a.pager, b.pager) && b.root_page == u32_at(b.pager.page(0), 0)
}

/// `b` is table `a` with its queued commits handed over.
pub open spec fn drained(a: TableModel, b: TableModel) -> bool {
    b == (TableModel { pager: PagerModel { pending: Seq::empty(), ..a.pager }, ..a })
}

/// Beginning or committing a transaction changes no table's contents: a
/// select of the table reads what it read before, and a sound tree, or one
/// in key order, stays so.
pub proof fn lemma_transaction_keeps_rows(a: TableModel, b: TableModel)
    requires
        began(a, b) || committed(a, b),
        b.columns == a.columns,
    ensures
        select_result(b) == select_result(a),
        table_tree_ok(a) ==> table_tree_ok(b),
        table_sorted(a) ==> table_sorted(b),
{
    crate::shape::lemma_same_pages(a.pager, b.pager, a.root_page as int);
    crate::order::lemma_same_pages_sorted(a.pager, b.pager, a.root_page as int);
}

/// A rollback undoes every change made since the transaction began. Take a
/// table `a` whose pages were all committed when the transaction began and
/// whose page 0 records its root; let `b` be the table when the rollback
/// comes, with nothing committed in between (its committed file is `a`'s)
/// and the same schema; let `c` be the table after the rollback. Then `c`
/// reads as `a` read, is sound and in key order where `a` was, and records
/// its root.
pub proof fn lemma_rollback_restores(a: TableModel, b: TableModel, c: TableModel)
    requires
        crate::pager::pager_wf(a.pager),
        forall|n: int| !#[trigger] a.pager.is_dirty(n),
        root_recorded(a),
        b.pager.disk == a.pager.disk,
        b.columns == a.columns,
        rolled_back(b, c),
        c.columns == b.columns,
    ensures
        select_result(c) == select_result(a),
        table_tree_ok(a) ==> table_tree_ok(c),
        table_sorted(a) ==> table_sorted(c),
        root_recorded(c),
{
    let pa = a.pager;
    let pc = c.pager;
    assert forall|n: int| #[trigger] pc.page(n) == pa.page(n) by {
        assert(pc.page(n) == b.pager.committed_page(n));
        if 0 <= n < pa.pages.len() {
            assert(!pa.is_dirty(n));
        }
    }
    assert(pa.file_pages == pa.disk.len()) by {
        if pa.file_pages != pa.disk.len() {
            assert(pa.is_dirty(pa.file_pages - 1));
        }
    }
    crate::shape::lemma_same_pages(pa, pc, a.root_page as int);
    crate::order::lemma_same_pages_sorted(pa, pc, a.root_page as int);
    assert(c.root_page == a.root_page);
}

/// A row that a successful insert wrote into a sound table is read back:
/// where a select of the table gave rows before, it gives one row more
/// after, and that row is among them.
pub proof fn lemma_inserted_row_read_back(
    before: Result<(Seq<Seq<char>>, Seq<Seq<ValueModel>>), Option<Seq<char>>>,
    after: Result<(Seq<Seq<char>>, Seq<Seq<ValueModel>>), Option<Seq<char>>>,
    vals: Seq<ValueModel>,
)
    requires
        row_selected(before, after, vals),
        before is Ok,
    ensures
        after is Ok,
        after->Ok_0.0 == before->Ok_0.0,
        after->Ok_0.1.len() == before->Ok_0.1.len() + 1,
        after->Ok_0.1.contains(vals),
{
    let rows = before->Ok_0.1;
    let i = choose|i: int|
        0 <= i <= rows.len() && after == Ok::<(Seq<Seq<char>>, Seq<Seq<ValueModel>>), Option<Seq<char>>>(
            (before->Ok_0.0, #[trigger] rows.insert(i, vals)),
        );
    assert(after->Ok_0.1[i] == vals);
}

proof fn lemma_each_table_wf(
    m1: Seq<(Seq<char>, TableModel)>,
    m2: Seq<(Seq<char>, TableModel)>,
    step: spec_fn(TableModel, TableModel) -> bool,
)
    requires
        storage_wf(m1),
        each_table(m1, m2, step),
        forall|i: int| 0 <= i < m2.len() ==> crate::pager::pager_wf(#[trigger] m2[i].1.pager),
    ensures
        storage_wf(m2),
{
    assert forall|i: int, j: int| 0 <= i < j < m2.len() implies #[trigger] m2[i].0 != #[trigger] m2[j].0 by {
        assert(m2[i].0 == m1[i].0 && m2[j].0 == m1[j].0);
    }
    assert forall|i: int| 0 <= i < m2.len() implies table_wf(#[trigger] m2[i].1) by {
        assert(m2[i].1.columns == m1[i].1.columns);
        assert(table_wf(m1[i].1));
    }
}

impl Storage {
    /// Begin an explicit transaction on every table.
    pub fn begin(&mut self) -> (r: Result<(), String>)
        requires
            old(self).wf(),
        ensures
            final(self).wf(),
            r is Err <==> any_in_transaction(old(self)@),
            r is Err ==> final(self)@ == old(self)@ && r->Err_0@ == "Already in a transaction."@,
            r is Ok ==> each_table(old(self)@, final(self)@, |a: TableModel, b: TableModel| began(a, b)),
    {
        if self.in_transaction() {
            return Err(String::from_str("Already in a transaction."));
        }
        let ghost m = self@;
        let n = self.tables.len();
        let mut i: usize = 0;
        while i < n
            invariant
                i <= n,
                n == self.tables@.len(),
                m.len() == n,
                storage_wf(m),
                !any_in_transaction(m),
                self@.len() == n,
                forall|j: int| 0 <= j < i ==> (#[trigger] self@[j]).0 == m[j].0 && began(m[j].1, self@[j].1),
                forall|j: int| i <= j < n ==> #[trigger] self@[j] == m[j],
            decreases n - i,
        {
            let ghost before = self@;
            let (name, mut store) = self.tables.remove(i);
            assert(before[i as int] == (name@, store@));
            assert(!m[i as int].1.pager.in_transaction);
            assert(table_wf(m[i as int].1));
            let _ = store.pager.begin();
            let ghost t = store@;
            self.tables.insert(i, (name, store));
            proof {
                assert(self@ =~= before.update(i as int, (m[i as int].0, t)));
                assert(began(m[i as int].1, t));
            }
            i = i + 1;
        }
        proof {
            assert forall|j: int| 0 <= j < self@.len() implies crate::pager::pager_wf(#[trigger] self@[j].1.pager) by {
                assert(table_wf(m[j].1));
            }
            lemma_each_table_wf(m, self@, |a: TableModel, b: TableModel| began(a, b));
        }
        Ok(())
    }

    /// Commit every table.
    pub fn commit(&mut self) -> (r: Result<(), String>)
        requires
            old(self).wf(),
        ensures
            r is Ok,
            final(self).wf(),
            each_table(old(self)@, final(self)@, |a: TableModel, b: TableModel| committed(a, b)),
    {
        let ghost m = self@;
        let n = self.tables.len();
        let mut i: usize = 0;
        while i < n
            invariant
                i <= n,
                n == self.tables@.len(),
                m.len() == n,
                storage_wf(m),
                self@.len() == n,
                forall|j: int| 0 <= j < i ==> (#[trigger] self@[j]).0 == m[j].0 && self@[j].1.columns
                    == m[j].1.columns && committed(m[j].1, self@[j].1),
                forall|j: int| i <= j < n ==> #[trigger] self@[j] == m[j],
            decreases n - i,
        {
            let ghost before = self@;
            let (name, mut store) = self.tables.remove(i);
            assert(before[i as int] == (name@, store@));
            assert(table_wf(m[i as int].1));
            let _ = store.pager.commit();
            let ghost t = store@;
            self.tables.insert(i, (name, store));
            proof {
                assert(self@ =~= before.update(i as int, (m[i as int].0, t)));
            }
            i = i + 1;
        }
        proof {
            lemma_each_table_wf(m, self@, |a: TableModel, b: TableModel| committed(a, b));
        }
        Ok(())
    }

    /// Roll back every table; each table's root page is read again from its
    /// committed metadata.
    pub fn rollback(&mut self) -> (r: Result<(), String>)
        requires
            old(self).wf(),
        ensures
            r is Ok,
            final(self).wf(),
            each_table(old(self)@, final(self)@, |a: TableModel, b: TableModel| rolled_back(a, b)),
    {
        let ghost m = self@;
        let n = self.tables.len();
        let mut i: usize = 0;
        while i < n
            invariant
                i <= n,
                n == self.tables@.len(),
                m.len() == n,
                storage_wf(m),
                self@.len() == n,
                forall|j: int| 0 <= j < i ==> (#[trigger] self@[j]).0 == m[j].0 && self@[j].1.columns
                    == m[j].1.columns && rolled_back(m[j].1, self@[j].1),
                forall|j: int| i <= j < n ==> #[trigger] self@[j] == m[j],
            decreases n - i,
        {
            let ghost before = self@;
            let (name, mut store) = self.tables.remove(i);
            assert(before[i as int] == (name@, store@));
            assert(table_wf(m[i as int].1));
            let _ = store.pager.rollback();
            let page0 = match store.pager.read_page(0) {
                Ok(p) => p,
                Err(_) => {
                    assert(false);
                    Vec::new()
                },
            };
            proof {
                crate::pager::lemma_page_len(store.pager@, 0);
            }
            store.root_page = read_u32(page0.as_slice(), META_ROOT_OFFSET);
            let ghost t = store@;
            self.tables.insert(i, (name, store));
            proof {
                assert(self@ =~= before.update(i as int, (m[i as int].0, t)));
            }
            i = i + 1;
        }
        proof {
            lemma_each_table_wf(m, self@, |a: TableModel, b: TableModel| rolled_back(a, b));
        }
        Ok(())
    }

    /// Hands over each table's commits not yet made durable, by table name.
    pub fn take_pending(&mut self) -> (out: Vec<(String, Vec<crate::pager::CommitBatch>)>)
        requires
            old(self).wf(),
        ensures
            final(self).wf(),
            each_table(old(self)@, final(self)@, |a: TableModel, b: TableModel| drained(a, b)),
            out@.len() == old(self)@.len(),
            forall|i: int|
                0 <= i < out@.len() ==> (#[trigger] out@[i]).0@ == old(self)@[i].0
                    && crate::pager::batches_model(out@[i].1@) == old(self)@[i].1.pager.pending,
    {
        let ghost m = self@;
        let n = self.tables.len();
        let mut out: Vec<(String, Vec<crate::pager::CommitBatch>)> = Vec::new();
        let mut i: usize = 0;
        while i < n
            invariant
                i <= n,
                n == self.tables@.len(),
                m.len() == n,
                storage_wf(m),
                self@.len() == n,
                out@.len() == i,
                forall|j: int| 0 <= j < i ==> (#[trigger] self@[j]).0 == m[j].0 && self@[j].1.columns
                    == m[j].1.columns && drained(m[j].1, self@[j].1),
                forall|j: int| i <= j < n ==> #[trigger] self@[j] == m[j],
                forall|j: int|
                    0 <= j < i ==> (#[trigger] out@[j]).0@ == m[j].0 && crate::pager::batches_model(
                        out@[j].1@,
                    ) == m[j].1.pager.pending,
            decreases n - i,
        {
            let ghost before = self@;
            let (name, mut store) = self.tables.remove(i);
            assert(before[i as int] == (name@, store@));
            assert(table_wf(m[i as int].1));
            let batches = store.pager.take_pending();
            let ghost t = store@;
            out.push((name.clone(), batches));
            self.tables.insert(i, (name, store));
            proof {
                assert(self@ =~= before.update(i as int, (m[i as int].0, t)));
            }
            i = i + 1;
        }
        proof {
            lemma_each_table_wf(m, self@, |a: TableModel, b: TableModel| drained(a, b));
        }
        out
    }
}

} // verus!

verus! {

/// A row's key is the integer in its first INTEGER column that holds one:
/// where position `i` is that column, the key is the value there, as it
/// stands, sign included.
pub proof fn lemma_key_is_first_integer(cols: Seq<ColumnModel>, vals: Seq<ValueModel>, i: int)
    requires
        0 <= i < cols.len(),
        i < vals.len(),
        cols[i].data_type == DataType::Integer,
        vals[i] is Integer,
        forall|j: int| 0 <= j < i ==> !(cols[j].data_type == DataType::Integer && #[trigger] vals[j] is Integer),
    ensures
        key_from(cols, vals, 0) == vals[i]->Integer_0,
{
    lemma_key_from_at(cols, vals, i, 0);
}

proof fn lemma_key_from_at(cols: Seq<ColumnModel>, vals: Seq<ValueModel>, i: int, k: nat)
    requires
        k <= i < cols.len(),
        i < vals.len(),
        cols[i].data_type == DataType::Integer,
        vals[i] is Integer,
        forall|j: int| 0 <= j < i ==> !(cols[j].data_type == DataType::Integer && #[trigger] vals[j] is Integer),
    ensures
        key_from(cols, vals, k) == vals[i]->Integer_0,
    decreases i - k,
{
    if k < i {
        assert(!(cols[k as int].data_type == DataType::Integer && vals[k as int] is Integer));
        lemma_key_from_at(cols, vals, i, k + 1);
    }
}

/// A row with no integer in any INTEGER column has key 0.
pub proof fn lemma_key_without_integer(cols: Seq<ColumnModel>, vals: Seq<ValueModel>, k: nat)
    requires
        forall|j: int|
            0 <= j < cols.len() && j < vals.len() ==> !(cols[j].data_type == DataType::Integer
                && #[trigger] vals[j] is Integer),
    ensures
        key_from(cols, vals, k) == 0,
    decreases cols.len() - k,
{
    if k < cols.len() && k < vals.len() {
        assert(!(cols[k as int].data_type == DataType::Integer && vals[k as int] is Integer));
        lemma_key_without_integer(cols, vals, k + 1);
    }
}

} // verus!
