//! B+Tree storage engine with slotted-page leaves for variable-size rows.
//!
//! Leaf page layout (slotted)
//! --------------------------
//!   [0]        node_type    = 0x01
//!   [1..5]     num_cells    (u32 LE)
//!   [5..9]     next_leaf    (u32 LE) — sibling pointer (0 = none)
//!   [9..11]    data_start   (u16 LE) — byte offset where data region begins
//!   [11..]     slot directory: num_cells × 4 bytes, each [offset: u16][length: u16]
//!   ...        free space
//!   [data_start..PAGE_SIZE]  cell data packed from end of page toward header
//!
//! Each cell in the data area: [key: i64 LE (8 bytes)][row_data: variable bytes]
//!
//! Internal node layout
//! --------------------
//!   [0]        node_type    = 0x02
//!   [1..5]     num_keys     (u32 LE)
//!   [5..9]     right_child  (u32 LE) — rightmost child page
//!   [9..]      entries: each is [child_page: u32 LE (4 bytes)][key: i64 LE (8 bytes)]
use vstd::prelude::*;
use vstd::bytes::*;
use crate::bytes::{
    i64_at, i64_le, lemma_le_roundtrip, lemma_splice, lemma_sub_eq, read_i64, read_u16, read_u32,
    splice, u16_at, u32_at, write_bytes, write_i64, write_u16, write_u32,
};
use crate::pager::{lemma_past_end, zero_page, Pager, PagerModel, MAX_PAGES};
use crate::text::{concat, decimal, decimal_string, int_string, int_text};
use crate::wal::PAGE_SIZE;
use crate::order::{
    cell_added, cells_of, one_leaf_in_order, scan_cells, descent_ok, key_absent, keyed, lemma_descent_step, pending, pi_of, pp_of, routes_to, sorted_tree, x_of,
};
use crate::shape::{
    lemma_finish_shape, lemma_leaf_insert_shape, lemma_new_root_shape, lemma_parent_insert, lemma_parent_split,
    lemma_rows_single, lemma_scan_shape, lemma_split_leaf_shape, chain_pages, node_ok, rows_of, shape, split_state,
    tree_ok,
};

verus! {

pub const NODE_TYPE_LEAF: u8 = 0x01;
pub const NODE_TYPE_INTERNAL: u8 = 0x02;

pub const LEAF_NUM_CELLS_OFFSET: usize = 1;
pub const LEAF_NEXT_LEAF_OFFSET: usize = 5;
pub const LEAF_DATA_START_OFFSET: usize = 9;
pub const LEAF_HEADER_SIZE: usize = 11;
/// offset(u16) + length(u16)
pub const SLOT_SIZE: usize = 4;
pub const KEY_SIZE: usize = 8;
/// Largest cell (key + row data) a leaf can take.
pub const MAX_CELL_DATA: usize = 4081;

pub const INTERNAL_NUM_KEYS_OFFSET: usize = 1;
pub const RIGHT_CHILD_OFFSET: usize = 5;
pub const INTERNAL_HEADER_SIZE: usize = 9;
/// child_page(4) + key(8)
pub const INTERNAL_ENTRY_SIZE: usize = 12;

// ---------------------------------------------------------------------------
// Page model
// ---------------------------------------------------------------------------

/// `q` equals `p` outside the byte range `[lo, hi)`.
pub open spec fn same_outside(p: Seq<u8>, q: Seq<u8>, lo: int, hi: int) -> bool {
    &&& q.len() == p.len()
    &&& forall|a: int, b: int|
        #![trigger q.subrange(a, b)]
        (0 <= a <= b <= lo || hi <= a <= b <= p.len()) ==> q.subrange(a, b) == p.subrange(a, b)
}

pub open spec fn leaf_count(p: Seq<u8>) -> u32 {
    u32_at(p, LEAF_NUM_CELLS_OFFSET as int)
}

pub open spec fn leaf_next(p: Seq<u8>) -> u32 {
    u32_at(p, LEAF_NEXT_LEAF_OFFSET as int)
}

pub open spec fn leaf_data_start(p: Seq<u8>) -> u16 {
    u16_at(p, LEAF_DATA_START_OFFSET as int)
}

/// Byte offset of slot `i` in the slot directory.
pub open spec fn slot_pos(i: int) -> int {
    LEAF_HEADER_SIZE + i * SLOT_SIZE
}

pub open spec fn slot_off(p: Seq<u8>, i: int) -> u16 {
    u16_at(p, slot_pos(i))
}

pub open spec fn slot_len(p: Seq<u8>, i: int) -> u16 {
    u16_at(p, slot_pos(i) + 2)
}

/// The key of cell `i`: the first 8 bytes of its data.
pub open spec fn cell_key(p: Seq<u8>, i: int) -> i64 {
    i64_at(p, slot_off(p, i) as int)
}

/// The row bytes of cell `i`: its data after the key.
pub open spec fn cell_row(p: Seq<u8>, i: int) -> Seq<u8> {
    p.subrange(slot_off(p, i) + KEY_SIZE, slot_off(p, i) + slot_len(p, i))
}

/// End of the slot directory of a leaf with `n` cells.
pub open spec fn slots_end(n: int) -> int {
    LEAF_HEADER_SIZE + n * SLOT_SIZE
}

/// A leaf page whose slots and cells all lie within the page.
pub open spec fn leaf_wf(p: Seq<u8>) -> bool {
    &&& p.len() == PAGE_SIZE
    &&& p[0] == NODE_TYPE_LEAF
    &&& slots_end(leaf_count(p) as int) <= leaf_data_start(p) <= PAGE_SIZE
    &&& forall|i: int|
        0 <= i < leaf_count(p) ==> leaf_data_start(p) <= #[trigger] slot_off(p, i) && slot_off(p, i)
            + slot_len(p, i) <= PAGE_SIZE && slot_len(p, i) >= KEY_SIZE
}

/// The cells of a leaf, in slot order: (key, row bytes).
pub open spec fn leaf_cells(p: Seq<u8>) -> Seq<(i64, Seq<u8>)> {
    Seq::new(leaf_count(p) as nat, |i: int| (cell_key(p, i), cell_row(p, i)))
}

/// Free bytes between the slot directory and the cell data.
pub open spec fn free_space(p: Seq<u8>) -> int {
    leaf_data_start(p) - slots_end(leaf_count(p) as int)
}

/// Space a cell with `row_len` row bytes takes in a leaf, slot included.
pub open spec fn cell_cost(row_len: int) -> int {
    SLOT_SIZE + KEY_SIZE + row_len
}

pub open spec fn internal_count(p: Seq<u8>) -> u32 {
    u32_at(p, INTERNAL_NUM_KEYS_OFFSET as int)
}

pub open spec fn right_child(p: Seq<u8>) -> u32 {
    u32_at(p, RIGHT_CHILD_OFFSET as int)
}

/// Byte offset of entry `i` of an internal node.
pub open spec fn entry_pos(i: int) -> int {
    INTERNAL_HEADER_SIZE + i * INTERNAL_ENTRY_SIZE
}

pub open spec fn entry_child(p: Seq<u8>, i: int) -> u32 {
    u32_at(p, entry_pos(i))
}

pub open spec fn entry_key(p: Seq<u8>, i: int) -> i64 {
    i64_at(p, entry_pos(i) + 4)
}

/// Most entries an internal node holds.
pub open spec fn max_keys() -> int {
    (PAGE_SIZE - INTERNAL_HEADER_SIZE) / INTERNAL_ENTRY_SIZE as int
}

/// An internal page whose entries lie within the page.
pub open spec fn internal_wf(p: Seq<u8>) -> bool {
    &&& p.len() == PAGE_SIZE
    &&& p[0] == NODE_TYPE_INTERNAL
    &&& internal_count(p) <= max_keys()
}

// ---------------------------------------------------------------------------
// Little-endian field access
// ---------------------------------------------------------------------------

/// Writes a `u16` field; the rest of the page is unchanged.
fn put_u16(page: &mut Vec<u8>, off: usize, v: u16)
    requires
        off + 2 <= old(page)@.len(),
    ensures
        same_outside(old(page)@, final(page)@, off as int, off + 2),
        u16_at(final(page)@, off as int) == v,
{
    write_u16(page, off, v);
    proof {
        lemma_le_roundtrip();
        lemma_splice(old(page)@, off as int, spec_u16_to_le_bytes(v));
    }
}

/// Writes a `u32` field; the rest of the page is unchanged.
fn put_u32(page: &mut Vec<u8>, off: usize, v: u32)
    requires
        off + 4 <= old(page)@.len(),
    ensures
        same_outside(old(page)@, final(page)@, off as int, off + 4),
        u32_at(final(page)@, off as int) == v,
{
    write_u32(page, off, v);
    proof {
        lemma_le_roundtrip();
        lemma_splice(old(page)@, off as int, spec_u32_to_le_bytes(v));
    }
}

/// Writes an `i64` field; the rest of the page is unchanged.
fn put_i64(page: &mut Vec<u8>, off: usize, v: i64)
    requires
        off + 8 <= old(page)@.len(),
    ensures
        same_outside(old(page)@, final(page)@, off as int, off + 8),
        i64_at(final(page)@, off as int) == v,
{
    write_i64(page, off, v);
    proof {
        lemma_le_roundtrip();
        lemma_splice(old(page)@, off as int, i64_le(v));
    }
}

/// Fields outside a written range keep their values.
proof fn lemma_same_outside_reads(p: Seq<u8>, q: Seq<u8>, lo: int, hi: int)
    requires
        same_outside(p, q, lo, hi),
    ensures
        forall|x: int|
            (0 <= x && x + 2 <= lo || hi <= x && x + 2 <= p.len()) ==> #[trigger] u16_at(q, x) == u16_at(p, x),
        forall|x: int|
            (0 <= x && x + 4 <= lo || hi <= x && x + 4 <= p.len()) ==> #[trigger] u32_at(q, x) == u32_at(p, x),
        forall|x: int|
            (0 <= x && x + 8 <= lo || hi <= x && x + 8 <= p.len()) ==> #[trigger] i64_at(q, x) == i64_at(p, x),
{
    assert forall|x: int| (0 <= x && x + 2 <= lo || hi <= x && x + 2 <= p.len()) implies #[trigger] u16_at(q, x) == u16_at(p, x) by {
        assert(q.subrange(x, x + 2) == p.subrange(x, x + 2));
    }
    assert forall|x: int| (0 <= x && x + 4 <= lo || hi <= x && x + 4 <= p.len()) implies #[trigger] u32_at(q, x) == u32_at(p, x) by {
        assert(q.subrange(x, x + 4) == p.subrange(x, x + 4));
    }
    assert forall|x: int| (0 <= x && x + 8 <= lo || hi <= x && x + 8 <= p.len()) implies #[trigger] i64_at(q, x) == i64_at(p, x) by {
        assert(q.subrange(x, x + 8) == p.subrange(x, x + 8));
    }
}

/// Two writes in a row change at most the union of their ranges.
proof fn lemma_same_outside_trans(p: Seq<u8>, q: Seq<u8>, r: Seq<u8>, lo: int, hi: int, lo2: int, hi2: int)
    requires
        same_outside(p, q, lo, hi),
        same_outside(q, r, lo2, hi2),
        0 <= lo <= hi <= p.len(),
        lo <= lo2 <= hi2 <= hi,
    ensures
        same_outside(p, r, lo, hi),
{
    assert forall|a: int, b: int|
        #![trigger r.subrange(a, b)]
        (0 <= a <= b <= lo || hi <= a <= b <= p.len()) implies r.subrange(a, b) == p.subrange(a, b) by {
        assert(r.subrange(a, b) == q.subrange(a, b));
        assert(q.subrange(a, b) == p.subrange(a, b));
    }
}

// ---------------------------------------------------------------------------
// Leaf helpers — slotted page
// ---------------------------------------------------------------------------

pub fn leaf_num_cells(page: &[u8]) -> (n: u32)
    requires
        page@.len() == PAGE_SIZE,
    ensures
        n == leaf_count(page@),
{
    read_u32(page, LEAF_NUM_CELLS_OFFSET)
}

pub fn leaf_next_leaf(page: &[u8]) -> (n: u32)
    requires
        page@.len() == PAGE_SIZE,
    ensures
        n == leaf_next(page@),
{
    read_u32(page, LEAF_NEXT_LEAF_OFFSET)
}

fn leaf_get_data_start(page: &[u8]) -> (n: u16)
    requires
        page@.len() == PAGE_SIZE,
    ensures
        n == leaf_data_start(page@),
{
    read_u16(page, LEAF_DATA_START_OFFSET)
}

/// Read slot i: returns (data_offset, data_length).
fn read_slot(page: &[u8], i: usize) -> (r: (u16, u16))
    requires
        page@.len() == PAGE_SIZE,
        slot_pos(i as int) + SLOT_SIZE <= PAGE_SIZE,
    ensures
        r == (slot_off(page@, i as int), slot_len(page@, i as int)),
{
    let off = LEAF_HEADER_SIZE + i * SLOT_SIZE;
    (read_u16(page, off), read_u16(page, off + 2))
}

/// Write slot i; the rest of the page is unchanged.
fn write_slot(page: &mut Vec<u8>, i: usize, data_off: u16, data_len: u16)
    requires
        old(page)@.len() == PAGE_SIZE,
        slot_pos(i as int) + SLOT_SIZE <= PAGE_SIZE,
    ensures
        same_outside(old(page)@, final(page)@, slot_pos(i as int), slot_pos(i as int) + SLOT_SIZE),
        slot_off(final(page)@, i as int) == data_off,
        slot_len(final(page)@, i as int) == data_len,
{
    let off = LEAF_HEADER_SIZE + i * SLOT_SIZE;
    let ghost p0 = page@;
    put_u16(page, off, data_off);
    let ghost p1 = page@;
    put_u16(page, off + 2, data_len);
    proof {
        lemma_same_outside_reads(p1, page@, off + 2, off + 4);
        lemma_same_outside_trans(p0, p1, page@, off as int, off + 4, off + 2, off + 4);
    }
}

/// Read the key from cell i (key is the first 8 bytes of cell data).
fn leaf_cell_key(page: &[u8], i: usize) -> (k: i64)
    requires
        leaf_wf(page@),
        i < leaf_count(page@),
    ensures
        k == cell_key(page@, i as int),
{
    let (off, _) = read_slot(page, i);
    read_i64(page, off as usize)
}

/// Read the row data (excluding key) from cell i.
fn leaf_cell_row(page: &[u8], i: usize) -> (r: &[u8])
    requires
        leaf_wf(page@),
        i < leaf_count(page@),
    ensures
        r@ == cell_row(page@, i as int),
{
    let (off, len) = read_slot(page, i);
    let start = off as usize + KEY_SIZE;
    let end = off as usize + len as usize;
    vstd::slice::slice_subrange(page, start, end)
}

/// Free space available in a leaf page.
pub fn leaf_free_space(page: &[u8]) -> (free: usize)
    requires
        page@.len() == PAGE_SIZE,
    ensures
        free == if leaf_data_start(page@) > slots_end(leaf_count(page@) as int) {
            free_space(page@)
        } else {
            0
        },
{
    let num = leaf_num_cells(page) as u64;
    let slots_end: u64 = LEAF_HEADER_SIZE as u64 + num * SLOT_SIZE as u64;
    let data_start = leaf_get_data_start(page) as u64;
    if data_start > slots_end {
        (data_start - slots_end) as usize
    } else {
        0
    }
}

/// Initialise a page as an empty leaf node.
fn init_leaf(page: &mut Vec<u8>)
    requires
        old(page)@.len() == PAGE_SIZE,
    ensures
        leaf_wf(final(page)@),
        leaf_count(final(page)@) == 0,
        leaf_next(final(page)@) == 0,
        leaf_data_start(final(page)@) == PAGE_SIZE,
        leaf_cells(final(page)@) == Seq::<(i64, Seq<u8>)>::empty(),
{
    page.set(0, NODE_TYPE_LEAF);
    let ghost p0 = page@;
    put_u32(page, LEAF_NUM_CELLS_OFFSET, 0);
    let ghost p1 = page@;
    put_u32(page, LEAF_NEXT_LEAF_OFFSET, 0);
    let ghost p2 = page@;
    put_u16(page, LEAF_DATA_START_OFFSET, PAGE_SIZE as u16);
    proof {
        lemma_same_outside_reads(p1, p2, 5, 9);
        lemma_same_outside_reads(p2, page@, 9, 11);
        assert(p1.subrange(0, 1) == p0.subrange(0, 1));
        assert(p2.subrange(0, 1) == p1.subrange(0, 1));
        assert(page@.subrange(0, 1) == p2.subrange(0, 1));
        assert(page@[0] == page@.subrange(0, 1)[0]);
        assert(p0[0] == p0.subrange(0, 1)[0]);
        assert(leaf_cells(page@) =~= Seq::<(i64, Seq<u8>)>::empty());
    }
}

// ---------------------------------------------------------------------------
// Internal node helpers
// ---------------------------------------------------------------------------

fn internal_num_keys(page: &[u8]) -> (n: u32)
    requires
        page@.len() == PAGE_SIZE,
    ensures
        n == internal_count(page@),
{
    read_u32(page, INTERNAL_NUM_KEYS_OFFSET)
}

fn internal_right_child(page: &[u8]) -> (n: u32)
    requires
        page@.len() == PAGE_SIZE,
    ensures
        n == right_child(page@),
{
    read_u32(page, RIGHT_CHILD_OFFSET)
}

fn internal_entry_offset(idx: usize) -> (off: usize)
    requires
        idx < max_keys(),
    ensures
        off == entry_pos(idx as int),
        off + INTERNAL_ENTRY_SIZE <= PAGE_SIZE,
{
    INTERNAL_HEADER_SIZE + idx * INTERNAL_ENTRY_SIZE
}

fn internal_child(page: &[u8], idx: usize) -> (c: u32)
    requires
        page@.len() == PAGE_SIZE,
        idx < max_keys(),
    ensures
        c == entry_child(page@, idx as int),
{
    read_u32(page, internal_entry_offset(idx))
}

fn internal_key(page: &[u8], idx: usize) -> (k: i64)
    requires
        page@.len() == PAGE_SIZE,
        idx < max_keys(),
    ensures
        k == entry_key(page@, idx as int),
{
    read_i64(page, internal_entry_offset(idx) + 4)
}

/// Writes entry `idx`; the rest of the page is unchanged.
fn internal_set_entry(page: &mut Vec<u8>, idx: usize, child: u32, key: i64)
    requires
        old(page)@.len() == PAGE_SIZE,
        idx < max_keys(),
    ensures
        same_outside(old(page)@, final(page)@, entry_pos(idx as int), entry_pos(idx as int) + INTERNAL_ENTRY_SIZE),
        entry_child(final(page)@, idx as int) == child,
        entry_key(final(page)@, idx as int) == key,
{
    let off = internal_entry_offset(idx);
    let ghost p0 = page@;
    put_u32(page, off, child);
    let ghost p1 = page@;
    put_i64(page, off + 4, key);
    proof {
        lemma_same_outside_reads(p1, page@, off + 4, off + 12);
        lemma_same_outside_trans(p0, p1, page@, off as int, off + 12, off + 4, off + 12);
    }
}

/// Most keys an internal node holds.
fn internal_max_keys() -> (n: usize)
    ensures
        n == max_keys(),
{
    (PAGE_SIZE - INTERNAL_HEADER_SIZE) / INTERNAL_ENTRY_SIZE
}

/// Initialise a page as an empty internal node.
fn init_internal(page: &mut Vec<u8>)
    requires
        old(page)@.len() == PAGE_SIZE,
    ensures
        internal_wf(final(page)@),
        internal_count(final(page)@) == 0,
        right_child(final(page)@) == 0,
{
    page.set(0, NODE_TYPE_INTERNAL);
    let ghost p0 = page@;
    put_u32(page, INTERNAL_NUM_KEYS_OFFSET, 0);
    let ghost p1 = page@;
    put_u32(page, RIGHT_CHILD_OFFSET, 0);
    proof {
        lemma_same_outside_reads(p1, page@, 5, 9);
        assert(p1.subrange(0, 1) == p0.subrange(0, 1));
        assert(page@.subrange(0, 1) == p1.subrange(0, 1));
        assert(page@[0] == page@.subrange(0, 1)[0]);
        assert(p0[0] == p0.subrange(0, 1)[0]);
    }
}

/// Maximum row data size that can be stored (must fit in a leaf with at least 2 cells).
/// The largest row a tree takes: two cells of it fit in one leaf.
pub open spec fn max_row_len() -> int {
    (PAGE_SIZE - LEAF_HEADER_SIZE) / 2 - SLOT_SIZE - KEY_SIZE
}

pub fn max_row_data_size() -> (n: usize)
    ensures
        n == max_row_len(),
        n == (PAGE_SIZE - LEAF_HEADER_SIZE) / 2 - SLOT_SIZE - KEY_SIZE,
        2 * cell_cost(n as int) <= PAGE_SIZE - LEAF_HEADER_SIZE,
{
    // Each cell needs: SLOT_SIZE + KEY_SIZE + row_data
    // Two cells must fit: 2 * (SLOT_SIZE + KEY_SIZE + row_data) <= PAGE_SIZE - LEAF_HEADER_SIZE
    (PAGE_SIZE - LEAF_HEADER_SIZE) / 2 - SLOT_SIZE - KEY_SIZE
}

// ---------------------------------------------------------------------------
// Leaf insertion
// ---------------------------------------------------------------------------

/// `pos` is where `key` goes in `cells`: after every smaller key, before the rest.
pub open spec fn is_insert_pos(cells: Seq<(i64, Seq<u8>)>, key: i64, pos: int) -> bool {
    &&& 0 <= pos <= cells.len()
    &&& forall|j: int| 0 <= j < pos ==> (#[trigger] cells[j]).0 < key
    &&& pos < cells.len() ==> cells[pos].0 >= key
}

/// Cells whose keys never decrease from one to the next; equal keys may
/// stand side by side.
pub open spec fn cells_in_key_order(cells: Seq<(i64, Seq<u8>)>) -> bool {
    forall|i: int, j: int| 0 <= i <= j < cells.len() ==> #[trigger] cells[i].0 <= #[trigger] cells[j].0
}

/// A cell put into a leaf at its insert position keeps the leaf's cells in
/// key order, also where cells with the same key are already there: the new
/// cell goes in front of them.
pub proof fn lemma_insert_keeps_key_order(cells: Seq<(i64, Seq<u8>)>, key: i64, row: Seq<u8>, pos: int)
    requires
        cells_in_key_order(cells),
        is_insert_pos(cells, key, pos),
    ensures
        cells_in_key_order(cells.insert(pos, (key, row))),
{
    let c = cells.insert(pos, (key, row));
    assert forall|i: int, j: int| 0 <= i <= j < c.len() implies #[trigger] c[i].0 <= #[trigger] c[j].0 by {
        if i < pos && j > pos {
            assert(cells[i].0 < key);
            assert(cells[pos].0 >= key);
            assert(cells[pos].0 <= cells[j - 1].0);
        } else if i < pos && j == pos {
            assert(cells[i].0 < key);
        } else if i == pos && j > pos {
            assert(cells[pos].0 >= key);
            assert(cells[pos].0 <= cells[j - 1].0);
        } else if i > pos {
            assert(cells[i - 1].0 <= cells[j - 1].0);
        } else if i < pos && j < pos {
            assert(cells[i].0 <= cells[j].0);
        }
    }
}

/// Splitting cells in key order at any point leaves both parts in key
/// order, with no key of the first part above a key of the second.
pub proof fn lemma_split_keeps_key_order(cells: Seq<(i64, Seq<u8>)>, at: int)
    requires
        cells_in_key_order(cells),
        0 <= at <= cells.len(),
    ensures
        cells_in_key_order(cells.take(at)),
        cells_in_key_order(cells.skip(at)),
        forall|i: int, j: int|
            0 <= i < at && 0 <= j < cells.len() - at ==> #[trigger] cells.take(at)[i].0 <= #[trigger] cells.skip(
                at,
            )[j].0,
{
    let a = cells.take(at);
    let b = cells.skip(at);
    assert forall|i: int, j: int| 0 <= i <= j < a.len() implies #[trigger] a[i].0 <= #[trigger] a[j].0 by {
        assert(cells[i].0 <= cells[j].0);
    }
    assert forall|i: int, j: int| 0 <= i <= j < b.len() implies #[trigger] b[i].0 <= #[trigger] b[j].0 by {
        assert(cells[i + at].0 <= cells[j + at].0);
    }
    assert forall|i: int, j: int| 0 <= i < at && 0 <= j < cells.len() - at implies #[trigger] a[i].0
        <= #[trigger] b[j].0 by {
        assert(cells[i].0 <= cells[j + at].0);
    }
}

/// Slot `j` of `p` is slot `k` of `q`.
pub open spec fn same_slot(p: Seq<u8>, j: int, q: Seq<u8>, k: int) -> bool {
    slot_off(p, j) == slot_off(q, k) && slot_len(p, j) == slot_len(q, k)
}

/// Shifts slots `[pos, num)` one place right (slot `num` takes slot `num - 1`).
fn shift_slots_right(page: &mut Vec<u8>, pos: usize, num: usize)
    requires
        old(page)@.len() == PAGE_SIZE,
        pos <= num,
        slots_end(num + 1) <= PAGE_SIZE,
    ensures
        same_outside(old(page)@, final(page)@, slot_pos(pos + 1), slots_end(num + 1)),
        forall|j: int| 0 <= j <= pos ==> #[trigger] same_slot(final(page)@, j, old(page)@, j),
        forall|j: int| pos < j <= num ==> #[trigger] same_slot(final(page)@, j, old(page)@, j - 1),
{
    let ghost o = page@;
    let mut i = num;
    while i > pos
        invariant
            pos <= i <= num,
            slots_end(num + 1) <= PAGE_SIZE,
            o.len() == PAGE_SIZE,
            same_outside(o, page@, slot_pos(pos + 1), slots_end(num + 1)),
            forall|j: int| 0 <= j <= i && j < num + 1 ==> #[trigger] same_slot(page@, j, o, j),
            forall|j: int| i < j <= num ==> #[trigger] same_slot(page@, j, o, j - 1),
        decreases i,
    {
        let (off, len) = read_slot(page.as_slice(), i - 1);
        let ghost p = page@;
        write_slot(page, i, off, len);
        proof {
            let q = page@;
            lemma_same_outside_reads(p, q, slot_pos(i as int), slot_pos(i as int) + 4);
            lemma_same_outside_trans(o, p, q, slot_pos(pos + 1), slots_end(num + 1), slot_pos(i as int), slot_pos(i as int) + 4);
            assert forall|j: int| 0 <= j <= i - 1 && j < num + 1 implies #[trigger] same_slot(q, j, o, j) by {
                assert(same_slot(p, j, o, j));
                assert(u16_at(q, slot_pos(j)) == u16_at(p, slot_pos(j)));
                assert(u16_at(q, slot_pos(j) + 2) == u16_at(p, slot_pos(j) + 2));
            }
            assert forall|j: int| i - 1 < j <= num implies #[trigger] same_slot(q, j, o, j - 1) by {
                if j != i {
                    assert(same_slot(p, j, o, j - 1));
                    assert(u16_at(q, slot_pos(j)) == u16_at(p, slot_pos(j)));
                    assert(u16_at(q, slot_pos(j) + 2) == u16_at(p, slot_pos(j) + 2));
                } else {
                    assert(same_slot(p, j - 1, o, j - 1));
                }
            }
        }
        i = i - 1;
    }
}

/// Inserts cell (key, row) into a leaf that has room, keeping keys in order:
/// the cell goes after every smaller key. Returns its position.
fn leaf_insert(page: &mut Vec<u8>, key: i64, row: &[u8]) -> (pos: usize)
    requires
        leaf_wf(old(page)@),
        free_space(old(page)@) >= cell_cost(row@.len() as int),
    ensures
        leaf_wf(final(page)@),
        leaf_next(final(page)@) == leaf_next(old(page)@),
        is_insert_pos(leaf_cells(old(page)@), key, pos as int),
        leaf_cells(final(page)@) == leaf_cells(old(page)@).insert(pos as int, (key, row@)),
        free_space(final(page)@) == free_space(old(page)@) - cell_cost(row@.len() as int),
{
    let ghost o = page@;
    let ghost oc = leaf_cells(o);
    let cell_size = KEY_SIZE + row.len();
    let num = leaf_num_cells(page.as_slice()) as usize;
    // Find sorted insertion point.
    let mut pos: usize = 0;
    while pos < num && leaf_cell_key(page.as_slice(), pos) < key
        invariant
            page@ == o,
            leaf_wf(o),
            num == leaf_count(o),
            pos <= num,
            forall|j: int| 0 <= j < pos ==> cell_key(o, j) < key,
        decreases num - pos,
    {
        pos = pos + 1;
    }
    proof {
        assert(is_insert_pos(oc, key, pos as int));
    }
    let ds = leaf_get_data_start(page.as_slice()) as usize;
    // Shift slot entries [pos..num) right by one to make room.
    shift_slots_right(page, pos, num);
    let ghost p1 = page@;
    // Allocate space in the data region (grows downward).
    let new_ds = ds - cell_size;
    put_u16(page, LEAF_DATA_START_OFFSET, new_ds as u16);
    let ghost p2 = page@;
    // Write cell data: key + row_data.
    put_i64(page, new_ds, key);
    let ghost p3 = page@;
    write_bytes(page, new_ds + KEY_SIZE, row);
    let ghost p4 = page@;
    // Write the new slot.
    write_slot(page, pos, new_ds as u16, cell_size as u16);
    let ghost p5 = page@;
    put_u32(page, LEAF_NUM_CELLS_OFFSET, (num + 1) as u32);
    proof {
        let f = page@;
        let se = slots_end(num + 1);
        lemma_splice(p3, (new_ds + KEY_SIZE) as int, row@);
        // The cell data area and everything from the old data start on.
        assert(f.subrange(ds as int, PAGE_SIZE as int) == o.subrange(ds as int, PAGE_SIZE as int)) by {
            assert(p1.subrange(ds as int, PAGE_SIZE as int) == o.subrange(ds as int, PAGE_SIZE as int));
            assert(p2.subrange(ds as int, PAGE_SIZE as int) == p1.subrange(ds as int, PAGE_SIZE as int));
            assert(p3.subrange(ds as int, PAGE_SIZE as int) == p2.subrange(ds as int, PAGE_SIZE as int));
            assert(p4.subrange(ds as int, PAGE_SIZE as int) == p3.subrange(ds as int, PAGE_SIZE as int));
            assert(p5.subrange(ds as int, PAGE_SIZE as int) == p4.subrange(ds as int, PAGE_SIZE as int));
            assert(f.subrange(ds as int, PAGE_SIZE as int) == p5.subrange(ds as int, PAGE_SIZE as int));
        }
        assert(i64_at(f, new_ds as int) == key) by {
            assert(p4.subrange(new_ds as int, new_ds + 8) == p3.subrange(new_ds as int, new_ds + 8));
            assert(p5.subrange(new_ds as int, new_ds + 8) == p4.subrange(new_ds as int, new_ds + 8));
            assert(f.subrange(new_ds as int, new_ds + 8) == p5.subrange(new_ds as int, new_ds + 8));
        }
        assert(f.subrange(new_ds + 8, ds as int) == row@) by {
            assert(p5.subrange(new_ds + 8, ds as int) == p4.subrange(new_ds + 8, ds as int));
            assert(f.subrange(new_ds + 8, ds as int) == p5.subrange(new_ds + 8, ds as int));
        }
        // Header fields.
        lemma_same_outside_reads(o, p1, slot_pos(pos + 1), se);
        lemma_same_outside_reads(p1, p2, 9, 11);
        lemma_same_outside_reads(p2, p3, new_ds as int, new_ds + 8);
        lemma_same_outside_reads(p4, p5, slot_pos(pos as int), slot_pos(pos as int) + 4);
        lemma_same_outside_reads(p5, f, 1, 5);
        assert(f.subrange(0, 1) == o.subrange(0, 1)) by {
            assert(p1.subrange(0, 1) == o.subrange(0, 1));
            assert(p2.subrange(0, 1) == p1.subrange(0, 1));
            assert(p3.subrange(0, 1) == p2.subrange(0, 1));
            assert(p4.subrange(0, 1) == p3.subrange(0, 1));
            assert(p5.subrange(0, 1) == p4.subrange(0, 1));
            assert(f.subrange(0, 1) == p5.subrange(0, 1));
        }
        assert(f[0] == f.subrange(0, 1)[0]);
        assert(o[0] == o.subrange(0, 1)[0]);
        assert(leaf_next(f) == leaf_next(o)) by {
            assert(p4.subrange(5, 9) == p3.subrange(5, 9));
        }
        assert(leaf_data_start(f) == new_ds) by {
            assert(p4.subrange(9, 11) == p3.subrange(9, 11));
        }
        // Slots.
        assert forall|j: int| 0 <= j <= num implies #[trigger] same_slot(f, j, p4, j) || j == pos by {
            if j != pos {
                assert(u16_at(p5, slot_pos(j)) == u16_at(p4, slot_pos(j)));
                assert(u16_at(p5, slot_pos(j) + 2) == u16_at(p4, slot_pos(j) + 2));
            }
        }
        assert forall|j: int| 0 <= j <= num implies #[trigger] same_slot(p4, j, p1, j) by {
            assert(p2.subrange(slot_pos(j), slot_pos(j) + 2) == p1.subrange(slot_pos(j), slot_pos(j) + 2));
            assert(p2.subrange(slot_pos(j) + 2, slot_pos(j) + 4) == p1.subrange(slot_pos(j) + 2, slot_pos(j) + 4));
            assert(p3.subrange(slot_pos(j), slot_pos(j) + 2) == p2.subrange(slot_pos(j), slot_pos(j) + 2));
            assert(p3.subrange(slot_pos(j) + 2, slot_pos(j) + 4) == p2.subrange(slot_pos(j) + 2, slot_pos(j) + 4));
            assert(p4.subrange(slot_pos(j), slot_pos(j) + 2) == p3.subrange(slot_pos(j), slot_pos(j) + 2));
            assert(p4.subrange(slot_pos(j) + 2, slot_pos(j) + 4) == p3.subrange(slot_pos(j) + 2, slot_pos(j) + 4));
        }
        // Old cells keep their bytes.
        assert forall|k: int| 0 <= k < num implies #[trigger] f.subrange(slot_off(o, k) as int, slot_off(o, k) + slot_len(o, k)) == o.subrange(slot_off(o, k) as int, slot_off(o, k) + slot_len(o, k)) by {
            lemma_sub_eq(f, o, ds as int, PAGE_SIZE as int, slot_off(o, k) as int, slot_off(o, k) + slot_len(o, k));
        }
        let fc = leaf_cells(f);
        let ins = oc.insert(pos as int, (key, row@));
        assert forall|j: int| 0 <= j < num + 1 implies #[trigger] fc[j] == ins[j] by {
            if j < pos {
                assert(same_slot(f, j, p4, j));
                assert(same_slot(p4, j, p1, j));
                assert(same_slot(p1, j, o, j));
                lemma_sub_eq(f, o, slot_off(o, j) as int, slot_off(o, j) + slot_len(o, j), slot_off(o, j) as int, slot_off(o, j) + 8);
                lemma_sub_eq(f, o, slot_off(o, j) as int, slot_off(o, j) + slot_len(o, j), slot_off(o, j) + 8, slot_off(o, j) + slot_len(o, j));
            } else if j == pos {
            } else {
                assert(same_slot(f, j, p4, j));
                assert(same_slot(p4, j, p1, j));
                assert(same_slot(p1, j, o, j - 1));
                let k = j - 1;
                lemma_sub_eq(f, o, slot_off(o, k) as int, slot_off(o, k) + slot_len(o, k), slot_off(o, k) as int, slot_off(o, k) + 8);
                lemma_sub_eq(f, o, slot_off(o, k) as int, slot_off(o, k) + slot_len(o, k), slot_off(o, k) + 8, slot_off(o, k) + slot_len(o, k));
            }
        }
        assert(fc =~= ins);
        assert forall|j: int| 0 <= j < leaf_count(f) implies leaf_data_start(f) <= #[trigger] slot_off(f, j) && slot_off(f, j) + slot_len(f, j) <= PAGE_SIZE && slot_len(f, j) >= KEY_SIZE by {
            if j < pos {
                assert(same_slot(f, j, p4, j));
                assert(same_slot(p4, j, p1, j));
                assert(same_slot(p1, j, o, j));
            } else if j > pos {
                assert(same_slot(f, j, p4, j));
                assert(same_slot(p4, j, p1, j));
                assert(same_slot(p1, j, o, j - 1));
            }
        }
    }
    pos
}

// ---------------------------------------------------------------------------
// Whole-leaf rewrites
// ---------------------------------------------------------------------------

/// The model of a list of cells.
pub open spec fn cells_model(v: Seq<(i64, Vec<u8>)>) -> Seq<(i64, Seq<u8>)> {
    v.map_values(|c: (i64, Vec<u8>)| (c.0, c.1@))
}

/// Leaf space that cells take, slots included.
pub open spec fn cells_cost(c: Seq<(i64, Seq<u8>)>) -> int
    decreases c.len(),
{
    if c.len() == 0 {
        0
    } else {
        cells_cost(c.drop_last()) + cell_cost(c.last().1.len() as int)
    }
}

/// Bytes of cell data (keys and rows) that cells take.
pub open spec fn data_size(c: Seq<(i64, Seq<u8>)>) -> int {
    cells_cost(c) - SLOT_SIZE * c.len()
}

/// Where `write_leaf_cells` puts cell `j`: cells are packed from the end of the page.
pub open spec fn cell_start(c: Seq<(i64, Seq<u8>)>, j: int) -> int {
    PAGE_SIZE - data_size(c.take(j + 1))
}

/// Cells fit in one leaf.
pub open spec fn cells_fit(c: Seq<(i64, Seq<u8>)>) -> bool {
    cells_cost(c) <= PAGE_SIZE - LEAF_HEADER_SIZE
}

proof fn lemma_cells_cost_take(c: Seq<(i64, Seq<u8>)>, i: int)
    requires
        0 <= i < c.len(),
    ensures
        cells_cost(c.take(i + 1)) == cells_cost(c.take(i)) + cell_cost(c[i].1.len() as int),
{
    assert(c.take(i + 1).drop_last() =~= c.take(i));
    assert(c.take(i + 1).last() == c[i]);
    assert(c.take(i + 1).len() == i + 1);
}

proof fn lemma_cells_cost_mono(c: Seq<(i64, Seq<u8>)>, i: int)
    requires
        0 <= i <= c.len(),
    ensures
        0 <= cells_cost(c.take(i)) <= cells_cost(c),
        cells_cost(c.take(i)) >= 12 * i,
    decreases c.len() - i,
{
    if i == c.len() {
        assert(c.take(i) =~= c);
        lemma_cells_cost_nonneg(c);
    } else {
        lemma_cells_cost_nonneg(c.take(i));
        assert(c.take(i).len() == i);
        lemma_cells_cost_mono(c, i + 1);
        lemma_cells_cost_take(c, i);
    }
}

proof fn lemma_cells_cost_nonneg(c: Seq<(i64, Seq<u8>)>)
    ensures
        cells_cost(c) >= 12 * c.len(),
    decreases c.len(),
{
    if c.len() > 0 {
        lemma_cells_cost_nonneg(c.drop_last());
        assert(cells_cost(c) == cells_cost(c.drop_last()) + cell_cost(c.last().1.len() as int));
        assert(c.drop_last().len() == c.len() - 1);
        assert(cell_cost(c.last().1.len() as int) >= cell_cost(0));
    }
}

/// Whether a page is a well-formed leaf.
fn leaf_valid(page: &[u8]) -> (b: bool)
    requires
        page@.len() == PAGE_SIZE,
    ensures
        b == leaf_wf(page@),
{
    if page[0] != NODE_TYPE_LEAF {
        return false;
    }
    let num = leaf_num_cells(page) as u64;
    let ds = leaf_get_data_start(page) as u64;
    if 11 + num * 4 > ds || ds > PAGE_SIZE as u64 {
        return false;
    }
    let n = num as usize;
    let mut i: usize = 0;
    while i < n
        invariant
            i <= n,
            n == leaf_count(page@),
            page@.len() == PAGE_SIZE,
            ds == leaf_data_start(page@),
            slots_end(n as int) <= ds <= PAGE_SIZE,
            forall|j: int|
                0 <= j < i ==> leaf_data_start(page@) <= #[trigger] slot_off(page@, j) && slot_off(page@, j)
                    + slot_len(page@, j) <= PAGE_SIZE && slot_len(page@, j) >= KEY_SIZE,
        decreases n - i,
    {
        let (off, len) = read_slot(page, i);
        if (off as u64) < ds || off as u64 + len as u64 > PAGE_SIZE as u64 || (len as usize) < KEY_SIZE {
            return false;
        }
        i = i + 1;
    }
    true
}

/// Collect all cells from a leaf page as (key, row_data) pairs, in slot order.
pub fn collect_leaf_cells(page: &[u8]) -> (cells: Vec<(i64, Vec<u8>)>)
    requires
        leaf_wf(page@),
    ensures
        cells_model(cells@) == leaf_cells(page@),
{
    let n = leaf_num_cells(page) as usize;
    let mut cells: Vec<(i64, Vec<u8>)> = Vec::with_capacity(n);
    let mut i: usize = 0;
    while i < n
        invariant
            i <= n,
            n == leaf_count(page@),
            leaf_wf(page@),
            cells@.len() == i,
            forall|j: int|
                0 <= j < i ==> (#[trigger] cells@[j]).0 == leaf_cells(page@)[j].0 && cells@[j].1@
                    == leaf_cells(page@)[j].1,
        decreases n - i,
    {
        let key = leaf_cell_key(page, i);
        let row = vstd::slice::slice_to_vec(leaf_cell_row(page, i));
        cells.push((key, row));
        i = i + 1;
    }
    assert(cells_model(cells@) =~= leaf_cells(page@));
    cells
}

/// Write a set of cells into a page as a fresh leaf (next_leaf = 0), packing
/// the cell data from the end of the page.
/// `collect_leaf_cells` on the page then gives back `cells`, in order.
#[verifier::spinoff_prover]
#[verifier::rlimit(30)]
pub fn write_leaf_cells(page: &mut Vec<u8>, cells: &Vec<(i64, Vec<u8>)>)
    requires
        old(page)@.len() == PAGE_SIZE,
        cells_fit(cells_model(cells@)),
    ensures
        leaf_wf(final(page)@),
        leaf_cells(final(page)@) == cells_model(cells@),
        leaf_next(final(page)@) == 0,
        free_space(final(page)@) == PAGE_SIZE - LEAF_HEADER_SIZE - cells_cost(cells_model(cells@)),
{
    let ghost c = cells_model(cells@);
    init_leaf(page);
    let ghost h = page@;
    let n = cells.len();
    proof {
        lemma_cells_cost_mono(c, n as int);
        assert(c.take(n as int) =~= c);
    }
    let mut data_start: usize = PAGE_SIZE;
    let mut i: usize = 0;
    while i < n
        invariant
            i <= n,
            n == c.len(),
            c == cells_model(cells@),
            cells_fit(c),
            cells_cost(c.take(n as int)) == cells_cost(c),
            page@.len() == PAGE_SIZE,
            h.len() == PAGE_SIZE,
            page@.subrange(0, LEAF_HEADER_SIZE as int) == h.subrange(0, LEAF_HEADER_SIZE as int),
            data_start == PAGE_SIZE - data_size(c.take(i as int)),
            slots_end(i as int) + data_size(c.take(i as int)) <= PAGE_SIZE,
            forall|j: int|
                0 <= j < i ==> (#[trigger] slot_off(page@, j)) == cell_start(c, j) && slot_len(page@, j)
                    == KEY_SIZE + c[j].1.len(),
            forall|j: int|
                0 <= j < i ==> #[trigger] i64_at(page@, cell_start(c, j)) == c[j].0 && page@.subrange(
                    cell_start(c, j) + KEY_SIZE,
                    cell_start(c, j) + KEY_SIZE + c[j].1.len(),
                ) == c[j].1,
            forall|j: int| 0 <= j < i ==> cell_start(c, j) >= data_start,
        decreases n - i,
    {
        let ghost p0 = page@;
        proof {
            lemma_cells_cost_take(c, i as int);
            lemma_cells_cost_mono(c, i + 1);
        }
        let cell_size = KEY_SIZE + cells[i].1.len();
        proof {
            lemma_cells_cost_mono(c, i as int);
            assert(c.take(i as int + 1).len() == i + 1);
        }
        data_start = data_start - cell_size;
        put_i64(page, data_start, cells[i].0);
        let ghost p1 = page@;
        write_bytes(page, data_start + KEY_SIZE, cells[i].1.as_slice());
        proof {
            lemma_splice(p1, data_start + 8, c[i as int].1);
        }
        let ghost p2 = page@;
        write_slot(page, i, data_start as u16, cell_size as u16);
        proof {
            let p3 = page@;
            let ds_new = data_start as int;
            let ds_old = ds_new + cell_size;
            assert(ds_new == cell_start(c, i as int));
            assert(slots_end(i + 1) <= ds_new);
            assert(cell_size <= PAGE_SIZE);
            assert(slot_off(p3, i as int) == cell_start(c, i as int));
            assert(slot_len(p3, i as int) == KEY_SIZE + c[i as int].1.len());
            lemma_splice(p1, ds_new + 8, c[i as int].1);
            lemma_same_outside_reads(p0, p1, ds_new, ds_new + 8);
            lemma_same_outside_reads(p2, p3, slot_pos(i as int), slot_pos(i as int) + 4);
            assert(p3.subrange(0, 11) == h.subrange(0, 11)) by {
                assert(p1.subrange(0, 11) == p0.subrange(0, 11));
                assert(p2.subrange(0, 11) == p1.subrange(0, 11));
                assert(p3.subrange(0, 11) == p2.subrange(0, 11));
            }
            assert forall|j: int| 0 <= j < i + 1 implies (#[trigger] slot_off(p3, j)) == cell_start(c, j) && slot_len(p3, j) == KEY_SIZE + c[j].1.len() by {
              if j < i {
                assert(slot_off(p0, j) == cell_start(c, j));
                assert(slot_pos(j) + 4 <= slots_end(i as int));
                assert(p1.subrange(slot_pos(j), slot_pos(j) + 2) == p0.subrange(slot_pos(j), slot_pos(j) + 2));
                assert(p1.subrange(slot_pos(j) + 2, slot_pos(j) + 4) == p0.subrange(slot_pos(j) + 2, slot_pos(j) + 4));
                assert(p2.subrange(slot_pos(j), slot_pos(j) + 2) == p1.subrange(slot_pos(j), slot_pos(j) + 2));
                assert(p2.subrange(slot_pos(j) + 2, slot_pos(j) + 4) == p1.subrange(slot_pos(j) + 2, slot_pos(j) + 4));
                assert(u16_at(p3, slot_pos(j)) == u16_at(p2, slot_pos(j)));
                assert(u16_at(p3, slot_pos(j) + 2) == u16_at(p2, slot_pos(j) + 2));
              }
            }
            assert forall|j: int| 0 <= j < i + 1 implies #[trigger] i64_at(p3, cell_start(c, j)) == c[j].0 && p3.subrange(cell_start(c, j) + KEY_SIZE, cell_start(c, j) + KEY_SIZE + c[j].1.len()) == c[j].1 by {
                let cs = cell_start(c, j);
                let e = cs + KEY_SIZE + c[j].1.len();
                if j < i {
                    lemma_cells_cost_take(c, j);
                    lemma_cells_cost_mono(c, j);
                    assert(cs >= ds_old);
                    assert(i64_at(p0, cs) == c[j].0);
                    assert(p1.subrange(cs, cs + 8) == p0.subrange(cs, cs + 8));
                    assert(p2.subrange(cs, cs + 8) == p1.subrange(cs, cs + 8));
                    assert(p3.subrange(cs, cs + 8) == p2.subrange(cs, cs + 8));
                    assert(p1.subrange(cs + 8, e) == p0.subrange(cs + 8, e));
                    assert(p2.subrange(cs + 8, e) == p1.subrange(cs + 8, e));
                    assert(p3.subrange(cs + 8, e) == p2.subrange(cs + 8, e));
                } else {
                    assert(p2.subrange(cs, cs + 8) == p1.subrange(cs, cs + 8));
                    assert(p3.subrange(cs, cs + 8) == p2.subrange(cs, cs + 8));
                    assert(p3.subrange(cs + 8, e) == p2.subrange(cs + 8, e));
                }
            }
        }
        i = i + 1;
    }
    let ghost p4 = page@;
    proof {
        lemma_cells_cost_mono(c, n as int);
    }
    put_u32(page, LEAF_NUM_CELLS_OFFSET, n as u32);
    let ghost p5 = page@;
    put_u16(page, LEAF_DATA_START_OFFSET, data_start as u16);
    proof {
        let f = page@;
        lemma_same_outside_reads(p4, p5, 1, 5);
        lemma_same_outside_reads(p5, f, 9, 11);
        assert(c.take(n as int) =~= c);
        assert(f.subrange(0, 1) == h.subrange(0, 1)) by {
            lemma_sub_eq(p4, h, 0, 11, 0, 1);
            assert(p5.subrange(0, 1) == p4.subrange(0, 1));
            assert(f.subrange(0, 1) == p5.subrange(0, 1));
        }
        assert(f[0] == f.subrange(0, 1)[0]);
        assert(h[0] == h.subrange(0, 1)[0]);
        assert(leaf_next(f) == 0) by {
            lemma_sub_eq(p4, h, 0, 11, 5, 9);
        }
        assert forall|j: int| 0 <= j < n implies (#[trigger] slot_off(f, j)) == cell_start(c, j) && slot_len(f, j) == KEY_SIZE + c[j].1.len() by {
            assert(slot_off(p4, j) == cell_start(c, j));
            assert(u16_at(p5, slot_pos(j)) == u16_at(p4, slot_pos(j)));
            assert(u16_at(p5, slot_pos(j) + 2) == u16_at(p4, slot_pos(j) + 2));
            assert(u16_at(f, slot_pos(j)) == u16_at(p5, slot_pos(j)));
            assert(u16_at(f, slot_pos(j) + 2) == u16_at(p5, slot_pos(j) + 2));
        }
        assert forall|j: int| 0 <= j < n implies #[trigger] i64_at(f, cell_start(c, j)) == c[j].0 && f.subrange(cell_start(c, j) + KEY_SIZE, cell_start(c, j) + KEY_SIZE + c[j].1.len()) == c[j].1 by {
            let cs = cell_start(c, j);
            let e = cs + KEY_SIZE + c[j].1.len();
            lemma_cells_cost_mono(c, j);
            lemma_cells_cost_mono(c, j + 1);
            lemma_cells_cost_take(c, j);
            assert(i64_at(p4, cs) == c[j].0);
            assert(i64_at(p5, cs) == i64_at(p4, cs));
            assert(p5.subrange(cs + 8, e) == p4.subrange(cs + 8, e));
            assert(f.subrange(cs + 8, e) == p5.subrange(cs + 8, e));
        }
        assert(leaf_cells(f) =~= c);
        assert forall|j: int| 0 <= j < leaf_count(f) implies leaf_data_start(f) <= #[trigger] slot_off(f, j) && slot_off(f, j) + slot_len(f, j) <= PAGE_SIZE && slot_len(f, j) >= KEY_SIZE by {
            assert(slot_off(f, j) == cell_start(c, j));
            lemma_cells_cost_mono(c, j);
            lemma_cells_cost_mono(c, j + 1);
            lemma_cells_cost_take(c, j);
        }
    }
}

// ---------------------------------------------------------------------------
// Leaf insertion / splitting through the pager
// ---------------------------------------------------------------------------

/// The pager after a call leaves every page but those in `changed` as it was.
pub open spec fn unchanged_except(m1: PagerModel, m2: PagerModel, changed: Set<int>) -> bool {
    &&& forall|n: int| !changed.contains(n) ==> #[trigger] m2.page(n) == m1.page(n)
    &&& m2.disk == m1.disk
    &&& m2.in_transaction == m1.in_transaction
    &&& m2.txn_id == m1.txn_id
    &&& m2.pending == m1.pending
}

fn err(msg: &str) -> (s: String)
    ensures
        s@ == msg@,
{
    String::from_str(msg)
}

/// A leaf page is never past the end of the file.
pub proof fn lemma_leaf_in_file(m: PagerModel, n: int)
    requires
        crate::pager::pager_wf(m),
        leaf_wf(m.page(n)) || internal_wf(m.page(n)),
    ensures
        0 <= n < m.file_pages,
{
    if n >= m.file_pages || n < 0 {
        if n >= m.file_pages {
            lemma_past_end(m, n);
        }
        assert(m.page(n)[0] == 0u8);
    }
}

/// Insert a cell into a leaf that has room, maintaining sorted key order.
fn insert_into_leaf(pager: &mut Pager, page_num: u32, key: i64, row_data: &[u8]) -> (r: Result<(), String>)
    requires
        old(pager).wf(),
        page_num < MAX_PAGES,
        leaf_wf(old(pager)@.page(page_num as int)),
        free_space(old(pager)@.page(page_num as int)) >= cell_cost(row_data@.len() as int),
    ensures
        r is Ok,
        final(pager).wf(),
        unchanged_except(old(pager)@, final(pager)@, set![page_num as int]),
        final(pager)@.file_pages == old(pager)@.file_pages,
        ({
            let o = old(pager)@.page(page_num as int);
            let f = final(pager)@.page(page_num as int);
            &&& leaf_wf(f)
            &&& leaf_next(f) == leaf_next(o)
            &&& free_space(f) == free_space(o) - cell_cost(row_data@.len() as int)
            &&& exists|pos: int|
                is_insert_pos(leaf_cells(o), key, pos) && leaf_cells(f) == leaf_cells(o).insert(
                    pos,
                    (key, row_data@),
                )
        }),
{
    proof {
        lemma_leaf_in_file(pager@, page_num as int);
    }
    let mut page = match pager.get_page(page_num) {
        Ok(p) => p,
        Err(e) => {
            return Err(e);
        },
    };
    let pos = leaf_insert(&mut page, key, row_data);
    let ghost m = pager@;
    match pager.write_page(page_num, page.as_slice()) {
        Ok(_) => {},
        Err(e) => {
            return Err(e);
        },
    }
    proof {
        assert(is_insert_pos(leaf_cells(m.page(page_num as int)), key, pos as int));
    }
    Ok(())
}

proof fn lemma_cells_cost_append(a: Seq<(i64, Seq<u8>)>, b: Seq<(i64, Seq<u8>)>)
    ensures
        cells_cost(a + b) == cells_cost(a) + cells_cost(b),
    decreases b.len(),
{
    if b.len() == 0 {
        assert(a + b =~= a);
    } else {
        lemma_cells_cost_append(a, b.drop_last());
        assert((a + b).drop_last() =~= a + b.drop_last());
        assert((a + b).last() == b.last());
    }
}

/// `k` is how many cells the split keeps on the left: the longest prefix
/// whose cost is at most half the total, but at least one cell.
pub open spec fn is_split_count(all: Seq<(i64, Seq<u8>)>, k: int) -> bool {
    let half = cells_cost(all) / 2;
    &&& 1 <= k <= all.len()
    &&& (k == 1 || cells_cost(all.take(k)) <= half)
    &&& (k == all.len() || cells_cost(all.take(k + 1)) > half)
}

/// Where a split divides `all`: the split count, but leaving at least one cell on the right.
pub open spec fn clamp_split(all: Seq<(i64, Seq<u8>)>, k: int) -> int {
    if k >= all.len() {
        all.len() - 1
    } else {
        k
    }
}

/// Every cell of `c` has at most `PAGE_SIZE` row bytes.
pub open spec fn rows_bounded(c: Seq<(i64, Seq<u8>)>) -> bool {
    forall|i: int| 0 <= i < c.len() ==> (#[trigger] c[i]).1.len() <= PAGE_SIZE
}

proof fn lemma_cells_cost_bound(c: Seq<(i64, Seq<u8>)>)
    requires
        rows_bounded(c),
    ensures
        cells_cost(c) <= c.len() * 4108,
    decreases c.len(),
{
    if c.len() > 0 {
        assert(rows_bounded(c.drop_last())) by {
            assert forall|i: int| 0 <= i < c.drop_last().len() implies (#[trigger] c.drop_last()[i]).1.len() <= PAGE_SIZE by {
                assert(c.drop_last()[i] == c[i]);
            }
        }
        lemma_cells_cost_bound(c.drop_last());
        assert(c.last() == c[c.len() - 1]);
    }
}

/// The cells of a leaf with (key, row) added at its sorted position.
fn cells_with_insert(page: &[u8], key: i64, row_data: &[u8]) -> (r: (Vec<(i64, Vec<u8>)>, usize))
    requires
        leaf_wf(page@),
        row_data@.len() <= PAGE_SIZE,
    ensures
        is_insert_pos(leaf_cells(page@), key, r.1 as int),
        cells_model(r.0@) == leaf_cells(page@).insert(r.1 as int, (key, row_data@)),
        rows_bounded(cells_model(r.0@)),
        r.0@.len() <= 1100,
{
    let ghost oc = leaf_cells(page@);
    let mut all_cells = collect_leaf_cells(page);
    let mut ins: usize = 0;
    while ins < all_cells.len() && all_cells[ins].0 < key
        invariant
            ins <= all_cells@.len(),
            cells_model(all_cells@) == oc,
            forall|j: int| 0 <= j < ins ==> oc[j].0 < key,
        decreases all_cells@.len() - ins,
    {
        proof {
            assert(cells_model(all_cells@)[ins as int] == (all_cells@[ins as int].0, all_cells@[ins as int].1@));
        }
        ins = ins + 1;
    }
    proof {
        if ins < all_cells@.len() {
            assert(cells_model(all_cells@)[ins as int] == (all_cells@[ins as int].0, all_cells@[ins as int].1@));
        }
        assert(is_insert_pos(oc, key, ins as int));
    }
    all_cells.insert(ins, (key, vstd::slice::slice_to_vec(row_data)));
    let ghost all = oc.insert(ins as int, (key, row_data@));
    proof {
        assert(cells_model(all_cells@) =~= all);
        assert forall|i: int| 0 <= i < all.len() implies (#[trigger] all[i]).1.len() <= PAGE_SIZE by {
            if i < ins {
                assert(all[i] == oc[i]);
                assert(cell_row(page@, i) == oc[i].1);
            } else if i > ins {
                assert(all[i] == oc[i - 1]);
                assert(cell_row(page@, i - 1) == oc[i - 1].1);
            }
        }
        assert(slots_end(leaf_count(page@) as int) <= PAGE_SIZE);
    }
    (all_cells, ins)
}

/// Total leaf space of a list of cells.
fn total_cost(cells: &Vec<(i64, Vec<u8>)>) -> (total: usize)
    requires
        rows_bounded(cells_model(cells@)),
        cells@.len() <= 1100,
    ensures
        total == cells_cost(cells_model(cells@)),
{
    let ghost all = cells_model(cells@);
    let n = cells.len();
    proof {
        lemma_cells_cost_bound(all);
    }
    let mut total: usize = 0;
    let mut t: usize = 0;
    while t < n
        invariant
            t <= n,
            n == all.len(),
            all == cells_model(cells@),
            cells_cost(all) <= n * 4108,
            n <= 1100,
            total == cells_cost(all.take(t as int)),
        decreases n - t,
    {
        proof {
            lemma_cells_cost_take(all, t as int);
            lemma_cells_cost_mono(all, t + 1);
            assert(all[t as int].1 == cells@[t as int].1@);
        }
        total = total + SLOT_SIZE + KEY_SIZE + cells[t].1.len();
        t = t + 1;
    }
    proof {
        assert(all.take(n as int) =~= all);
    }
    total
}

/// How many cells the left half of a split keeps (before leaving one for the right).
fn split_count(cells: &Vec<(i64, Vec<u8>)>, total: usize) -> (k: usize)
    requires
        cells@.len() >= 1,
        total == cells_cost(cells_model(cells@)),
        rows_bounded(cells_model(cells@)),
        cells@.len() <= 1100,
    ensures
        is_split_count(cells_model(cells@), k as int),
{
    let ghost all = cells_model(cells@);
    let n = cells.len();
    proof {
        lemma_cells_cost_bound(all);
    }
    let half = total / 2;
    let mut left_count: usize = 0;
    let mut left_bytes: usize = 0;
    while left_count < n
        invariant
            left_count <= n,
            n == all.len(),
            all == cells_model(cells@),
            total == cells_cost(all),
            half == cells_cost(all) / 2,
            cells_cost(all) <= n * 4108,
            n <= 1100,
            left_bytes == cells_cost(all.take(left_count as int)),
            left_count <= 1 || left_bytes <= half,
        ensures
            left_count <= n,
            left_bytes == cells_cost(all.take(left_count as int)),
            left_count <= 1 || left_bytes <= half,
            left_count == n || (left_count > 0 && cells_cost(all.take(left_count + 1)) > half),
        decreases n - left_count,
    {
        proof {
            lemma_cells_cost_take(all, left_count as int);
            lemma_cells_cost_mono(all, left_count + 1);
            assert(all[left_count as int].1 == cells@[left_count as int].1@);
        }
        let cell_cost = SLOT_SIZE + KEY_SIZE + cells[left_count].1.len();
        if left_bytes + cell_cost > half && left_count > 0 {
            break;
        }
        left_bytes = left_bytes + cell_cost;
        left_count = left_count + 1;
    }
    left_count
}

/// Room for cell data in a leaf page, past its header.
pub open spec fn leaf_capacity() -> int {
    PAGE_SIZE - LEAF_HEADER_SIZE
}

/// Whether both parts of `all` split after `c` cells fit in a leaf.
pub open spec fn halves_fit(all: Seq<(i64, Seq<u8>)>, c: int) -> bool {
    cells_cost(all.take(c)) <= leaf_capacity() && cells_cost(all.skip(c)) <= leaf_capacity()
}

/// How many leading cells of `all` fit in one leaf, counting on from `j`.
pub open spec fn fit_count(all: Seq<(i64, Seq<u8>)>, j: nat) -> nat
    decreases all.len() - j,
{
    if j < all.len() && cells_cost(all.take(j + 1 as int)) <= leaf_capacity() {
        fit_count(all, j + 1)
    } else {
        j
    }
}

/// The split used when the split by bytes does not fit: as many cells on
/// the left as fit in a leaf, but at least one and leaving one on the right.
pub open spec fn fallback_split(all: Seq<(i64, Seq<u8>)>) -> int {
    let f = fit_count(all, 0) as int;
    let g = if f < 1 {
        1
    } else {
        f
    };
    if g >= all.len() {
        all.len() - 1
    } else {
        g
    }
}

/// Where a leaf split divides `all`, `k` being the split count by bytes:
/// there when both parts fit, else at the fallback.
pub open spec fn split_point(all: Seq<(i64, Seq<u8>)>, k: int) -> int {
    let c = clamp_split(all, k);
    if halves_fit(all, c) {
        c
    } else {
        fallback_split(all)
    }
}

/// A leaf split of `oc` with (key, row) added cannot be written: the cells
/// that go left, or those that go right, need more than a page.
pub open spec fn split_overflows(oc: Seq<(i64, Seq<u8>)>, key: i64, row: Seq<u8>) -> bool {
    exists|pos: int, k: int|
        #![trigger is_insert_pos(oc, key, pos), is_split_count(oc.insert(pos, (key, row)), k)]
        {
            let all = oc.insert(pos, (key, row));
            &&& is_insert_pos(oc, key, pos)
            &&& is_split_count(all, k)
            &&& !halves_fit(all, split_point(all, k))
        }
}

proof fn lemma_fit_count_bound(all: Seq<(i64, Seq<u8>)>, j: nat)
    requires
        j <= all.len(),
    ensures
        j <= fit_count(all, j) <= all.len(),
    decreases all.len() - j,
{
    if j < all.len() && cells_cost(all.take(j + 1 as int)) <= leaf_capacity() {
        lemma_fit_count_bound(all, j + 1);
    }
}

proof fn lemma_fit_count_prop(all: Seq<(i64, Seq<u8>)>, j: nat)
    requires
        j <= all.len(),
        cells_cost(all.take(j as int)) <= leaf_capacity(),
    ensures
        cells_cost(all.take(fit_count(all, j) as int)) <= leaf_capacity(),
        fit_count(all, j) == all.len() || cells_cost(all.take(fit_count(all, j) + 1 as int)) > leaf_capacity(),
        j <= fit_count(all, j) <= all.len(),
    decreases all.len() - j,
{
    if j < all.len() && cells_cost(all.take(j + 1 as int)) <= leaf_capacity() {
        lemma_fit_count_prop(all, j + 1);
    }
}

/// The cost of one cell.
proof fn lemma_cells_cost_one(x: (i64, Seq<u8>))
    ensures
        cells_cost(seq![x]) == cell_cost(x.1.len() as int),
{
    assert(seq![x].drop_last() =~= Seq::<(i64, Seq<u8>)>::empty());
    assert(cells_cost(Seq::<(i64, Seq<u8>)>::empty()) == 0);
    assert(seq![x].last() == x);
}

/// The cells after the first `c` cost the rest of the total.
proof fn lemma_cells_cost_skip(all: Seq<(i64, Seq<u8>)>, c: int)
    requires
        0 <= c <= all.len(),
    ensures
        cells_cost(all.skip(c)) == cells_cost(all) - cells_cost(all.take(c)),
        0 <= cells_cost(all.skip(c)) <= cells_cost(all),
        0 <= cells_cost(all.take(c)) <= cells_cost(all),
{
    lemma_cells_cost_append(all.take(c), all.skip(c));
    assert(all.take(c) + all.skip(c) =~= all);
    lemma_cells_cost_nonneg(all.take(c));
    lemma_cells_cost_nonneg(all.skip(c));
}

/// A leaf whose cells fit in a page, split with a new cell of a row of at
/// most `max_row_len` bytes, always splits into two parts that fit.
proof fn lemma_split_fits(oc: Seq<(i64, Seq<u8>)>, key: i64, row: Seq<u8>, pos: int, k: int)
    requires
        is_insert_pos(oc, key, pos),
        is_split_count(oc.insert(pos, (key, row)), k),
        cells_cost(oc) <= leaf_capacity(),
        row.len() <= max_row_len(),
    ensures
        !split_overflows(oc, key, row),
{
    let x = (key, row);
    let all = oc.insert(pos, x);
    let cn = cell_cost(row.len() as int);
    lemma_insert_pos_and_split_only(oc, key, row, pos, k);
    lemma_cells_cost_one(x);
    // The total is the old cells' cost plus the new cell's.
    assert(all =~= oc.take(pos) + seq![x] + oc.skip(pos));
    lemma_cells_cost_append(oc.take(pos) + seq![x], oc.skip(pos));
    lemma_cells_cost_append(oc.take(pos), seq![x]);
    lemma_cells_cost_skip(oc, pos);
    assert(cells_cost(all) == cells_cost(oc) + cn);
    let c0 = clamp_split(all, k);
    if all.len() == 1 {
        assert(c0 == 0);
        assert(all.skip(0) =~= all);
        assert(all.take(0) =~= Seq::<(i64, Seq<u8>)>::empty());
        assert(halves_fit(all, c0));
        return;
    }
    if halves_fit(all, c0) {
        return;
    }
    assert(all.take(0) =~= Seq::<(i64, Seq<u8>)>::empty());
    lemma_fit_count_prop(all, 0);
    let f = fit_count(all, 0) as int;
    let c = fallback_split(all);
    if f == all.len() {
        assert(c == all.len() - 1);
        assert(all.take(f) =~= all);
        lemma_cells_cost_skip(all, c);
    } else if f == 0 {
        if pos == 0 {
            assert(all.take(1) =~= seq![x]);
        } else {
            assert(all.take(1) =~= oc.take(1));
            lemma_cells_cost_skip(oc, 1);
        }
        assert(false);
    } else {
        assert(c == f);
        lemma_cells_cost_skip(all, f);
        if pos >= f + 1 {
            assert(all.take(f + 1) =~= oc.take(f + 1));
            lemma_cells_cost_skip(oc, f + 1);
            assert(false);
        } else if pos < f {
            assert(all.skip(f) =~= oc.skip(f - 1));
            lemma_cells_cost_skip(oc, f - 1);
        } else {
            assert(all.take(f + 1) =~= oc.take(f) + seq![x]);
            lemma_cells_cost_append(oc.take(f), seq![x]);
            assert(all.skip(f) =~= seq![x] + oc.skip(f));
            lemma_cells_cost_append(seq![x], oc.skip(f));
            lemma_cells_cost_skip(oc, f);
        }
    }
}

/// The fallback split: the number of leading cells that fit, clamped.
fn fallback_count(cells: &Vec<(i64, Vec<u8>)>) -> (c: usize)
    requires
        cells@.len() >= 2,
        rows_bounded(cells_model(cells@)),
        cells@.len() <= 1100,
    ensures
        c == fallback_split(cells_model(cells@)),
{
    let ghost all = cells_model(cells@);
    let n = cells.len();
    let mut j: usize = 0;
    let mut bytes: usize = 0;
    while j < n
        invariant
            j <= n,
            n == all.len(),
            all == cells_model(cells@),
            rows_bounded(all),
            bytes == cells_cost(all.take(j as int)),
            bytes <= leaf_capacity(),
            fit_count(all, 0) == fit_count(all, j as nat),
        ensures
            j <= n,
            fit_count(all, 0) == j,
        decreases n - j,
    {
        proof {
            lemma_cells_cost_take(all, j as int);
            assert(all[j as int].1 == cells@[j as int].1@);
        }
        let cost = SLOT_SIZE + KEY_SIZE + cells[j].1.len();
        if bytes + cost > PAGE_SIZE - LEAF_HEADER_SIZE {
            break;
        }
        bytes = bytes + cost;
        j = j + 1;
    }
    let g = if j < 1 {
        1
    } else {
        j
    };
    if g >= n {
        n - 1
    } else {
        g
    }
}

/// There is one place for a key among cells.
proof fn lemma_insert_pos_unique(oc: Seq<(i64, Seq<u8>)>, key: i64, p: int, q: int)
    requires
        is_insert_pos(oc, key, p),
        is_insert_pos(oc, key, q),
    ensures
        p == q,
{
    if p < q {
        assert(oc[p].0 < key);
    } else if q < p {
        assert(oc[q].0 < key);
    }
}

/// There is one split count.
proof fn lemma_split_count_unique(all: Seq<(i64, Seq<u8>)>, a: int, b: int)
    requires
        is_split_count(all, a),
        is_split_count(all, b),
    ensures
        a == b,
{
    if a < b {
        lemma_cells_cost_mono(all.take(b), a + 1);
        assert(all.take(b).take(a + 1) =~= all.take(a + 1));
    } else if b < a {
        lemma_cells_cost_mono(all.take(a), b + 1);
        assert(all.take(a).take(b + 1) =~= all.take(b + 1));
    }
}

/// With the place of the key and the split count known, a split overflows
/// exactly when those halves do not fit.
proof fn lemma_insert_pos_and_split_only(oc: Seq<(i64, Seq<u8>)>, key: i64, row: Seq<u8>, pos: int, k: int)
    requires
        is_insert_pos(oc, key, pos),
        is_split_count(oc.insert(pos, (key, row)), k),
    ensures
        split_overflows(oc, key, row) <==> ({
            let all = oc.insert(pos, (key, row));
            !halves_fit(all, split_point(all, k))
        }),
{
    if split_overflows(oc, key, row) {
        let (p2, k2) = choose|p2: int, k2: int|
            #![trigger is_insert_pos(oc, key, p2), is_split_count(oc.insert(p2, (key, row)), k2)]
            {
                let all = oc.insert(p2, (key, row));
                &&& is_insert_pos(oc, key, p2)
                &&& is_split_count(all, k2)
                &&& !halves_fit(all, split_point(all, k2))
            };
        lemma_insert_pos_unique(oc, key, pos, p2);
        lemma_split_count_unique(oc.insert(pos, (key, row)), k, k2);
    }
}

/// Split a full leaf. The new key/row is included in the split: the cells,
/// with the new one in key order, are divided by bytes (about half on the
/// left, at least one cell on each side when there are two or more); the
/// left part stays in the leaf, the right part goes to a new leaf that takes
/// over the old next pointer. Returns (first key of the right part, new page).
#[verifier::rlimit(80)]
#[verifier::spinoff_prover]
fn split_leaf(pager: &mut Pager, page_num: u32, key: i64, row_data: &[u8]) -> (r: Result<(i64, u32), String>)
    requires
        old(pager).wf(),
        page_num < MAX_PAGES,
        leaf_wf(old(pager)@.page(page_num as int)),
        row_data@.len() <= PAGE_SIZE,
    ensures
        final(pager).wf(),
        match r {
            Ok((median, new_page)) => {
                let o = old(pager)@.page(page_num as int);
                let oc = leaf_cells(o);
                let left = final(pager)@.page(page_num as int);
                let right = final(pager)@.page(new_page as int);
                &&& new_page == old(pager)@.file_pages
                &&& final(pager)@.file_pages == old(pager)@.file_pages + 1
                &&& unchanged_except(old(pager)@, final(pager)@, set![page_num as int, new_page as int])
                &&& leaf_wf(left) && leaf_wf(right)
                &&& leaf_next(left) == new_page
                &&& leaf_next(right) == leaf_next(o)
                &&& exists|pos: int, k: int|
                    #![trigger is_insert_pos(oc, key, pos), is_split_count(oc.insert(pos, (key, row_data@)), k)]
                    {
                        let all = oc.insert(pos, (key, row_data@));
                        &&& is_insert_pos(oc, key, pos)
                        &&& is_split_count(all, k)
                        &&& leaf_cells(left) == all.take(split_point(all, k))
                        &&& leaf_cells(right) == all.skip(split_point(all, k))
                        &&& median == all[split_point(all, k)].0
                    }
            },
            Err(_) => *final(pager) == *old(pager),
        },
        r is Err <==> old(pager)@.file_pages >= MAX_PAGES || split_overflows(
            leaf_cells(old(pager)@.page(page_num as int)),
            key,
            row_data@,
        ),
{
    proof {
        lemma_leaf_in_file(pager@, page_num as int);
    }
    let ghost m = pager@;
    let ghost o = m.page(page_num as int);
    let ghost oc = leaf_cells(o);
    let page = match pager.read_page(page_num) {
        Ok(p) => p,
        Err(e) => {
            return Err(e);
        },
    };
    // Collect all existing cells + the new one, sorted by key.
    let (mut all_cells, ins) = cells_with_insert(page.as_slice(), key, row_data);
    let ghost all = oc.insert(ins as int, (key, row_data@));
    let n = all_cells.len();
    // Find split point: aim for ~50% of total data bytes in the left half.
    let total = total_cost(&all_cells);
    let split = split_count(&all_cells, total);
    let ghost k = split as int;
    // Ensure at least 1 cell on each side.
    let mut left_count = split;
    if left_count >= n {
        left_count = n - 1;
    }
    let ghost c0 = left_count as int;
    proof {
        assert(c0 == clamp_split(all, k));
        lemma_cells_cost_mono(all, c0);
        lemma_cells_cost_mono(all, k);
        lemma_cells_cost_append(all.take(c0), all.skip(c0));
        assert(all.take(c0) + all.skip(c0) =~= all);
        lemma_cells_cost_bound(all);
        lemma_insert_pos_and_split_only(oc, key, row_data@, ins as int, k);
    }
    let mut left_cost = total_cost_prefix(&all_cells, left_count);
    if left_cost > PAGE_SIZE - LEAF_HEADER_SIZE || total - left_cost > PAGE_SIZE - LEAF_HEADER_SIZE {
        // The split by bytes does not fit: put as many cells on the left as fit.
        if n < 2 {
            return Err(err("Row too large to split the leaf."));
        }
        left_count = fallback_count(&all_cells);
        left_cost = total_cost_prefix(&all_cells, left_count);
        proof {
            let c1 = left_count as int;
            lemma_cells_cost_mono(all, c1);
            lemma_cells_cost_append(all.take(c1), all.skip(c1));
            assert(all.take(c1) + all.skip(c1) =~= all);
        }
        if left_cost > PAGE_SIZE - LEAF_HEADER_SIZE || total - left_cost > PAGE_SIZE - LEAF_HEADER_SIZE {
            return Err(err("Row too large to split the leaf."));
        }
    }
    let ghost lc = left_count as int;
    assert(lc == split_point(all, k));
    let right_cells = all_cells.split_off(left_count);
    let left_cells = all_cells;
    proof {
        assert(cells_model(left_cells@) =~= all.take(lc));
        assert(cells_model(right_cells@) =~= all.skip(lc));
    }
    // Preserve the old leaf's next_leaf so the new leaf inherits it.
    let old_next = leaf_next_leaf(page.as_slice());
    // Allocate the new right leaf.
    let new_page_num = match pager.allocate_page() {
        Ok(p) => p,
        Err(e) => {
            return Err(e);
        },
    };
    // Write the left half back into the leaf being split.
    let mut left_page = page;
    write_leaf_cells(&mut left_page, &left_cells);
    let ghost lp0 = left_page@;
    put_u32(&mut left_page, LEAF_NEXT_LEAF_OFFSET, new_page_num);
    proof {
        lemma_leaf_next_update(lp0, left_page@, new_page_num);
        lemma_leaf_in_file(m, page_num as int);
    }
    match pager.write_page(page_num, left_page.as_slice()) {
        Ok(_) => {},
        Err(e) => {
            return Err(e);
        },
    }
    // Write right half into the new leaf.
    let mut right_page = match pager.read_page(new_page_num) {
        Ok(p) => p,
        Err(e) => {
            return Err(e);
        },
    };
    write_leaf_cells(&mut right_page, &right_cells);
    let ghost rp0 = right_page@;
    put_u32(&mut right_page, LEAF_NEXT_LEAF_OFFSET, old_next);
    proof {
        lemma_leaf_next_update(rp0, right_page@, old_next);
    }
    match pager.write_page(new_page_num, right_page.as_slice()) {
        Ok(_) => {},
        Err(e) => {
            return Err(e);
        },
    }
    proof {
        assert(cells_model(right_cells@)[0] == (right_cells@[0].0, right_cells@[0].1@));
        assert(all.skip(lc)[0] == all[lc]);
        assert(is_insert_pos(oc, key, ins as int));
        assert(is_split_count(all, k));
    }
    let median_key = right_cells[0].0;
    Ok((median_key, new_page_num))
}

/// Cost of the first `k` cells.
fn total_cost_prefix(cells: &Vec<(i64, Vec<u8>)>, k: usize) -> (total: usize)
    requires
        k <= cells@.len(),
        rows_bounded(cells_model(cells@)),
        cells@.len() <= 1100,
    ensures
        total == cells_cost(cells_model(cells@).take(k as int)),
{
    let ghost all = cells_model(cells@);
    proof {
        lemma_cells_cost_bound(all);
    }
    let mut total: usize = 0;
    let mut t: usize = 0;
    while t < k
        invariant
            t <= k <= all.len(),
            all == cells_model(cells@),
            cells_cost(all) <= all.len() * 4108,
            all.len() <= 1100,
            total == cells_cost(all.take(t as int)),
        decreases k - t,
    {
        proof {
            lemma_cells_cost_take(all, t as int);
            lemma_cells_cost_mono(all, t + 1);
            assert(all[t as int].1 == cells@[t as int].1@);
        }
        total = total + SLOT_SIZE + KEY_SIZE + cells[t].1.len();
        t = t + 1;
    }
    total
}

/// Setting the next pointer of a leaf keeps its cells.
proof fn lemma_leaf_next_update(p: Seq<u8>, q: Seq<u8>, next: u32)
    requires
        leaf_wf(p),
        same_outside(p, q, LEAF_NEXT_LEAF_OFFSET as int, LEAF_NEXT_LEAF_OFFSET + 4),
        u32_at(q, LEAF_NEXT_LEAF_OFFSET as int) == next,
    ensures
        leaf_wf(q),
        leaf_next(q) == next,
        leaf_cells(q) == leaf_cells(p),
        free_space(q) == free_space(p),
{
    lemma_same_outside_reads(p, q, 5, 9);
    assert(q.subrange(0, 1) == p.subrange(0, 1));
    assert(q[0] == q.subrange(0, 1)[0]);
    assert(p[0] == p.subrange(0, 1)[0]);
    assert forall|i: int| 0 <= i < leaf_count(p) implies #[trigger] slot_off(q, i) == slot_off(p, i) && slot_len(q, i) == slot_len(p, i) by {}
    assert forall|i: int| 0 <= i < leaf_count(p) implies #[trigger] leaf_cells(q)[i] == leaf_cells(p)[i] by {
        assert(slot_off(q, i) == slot_off(p, i));
        let a = slot_off(p, i) as int;
        let b = a + slot_len(p, i);
        assert(q.subrange(a, b) == p.subrange(a, b));
        lemma_sub_eq(q, p, a, b, a, a + 8);
        lemma_sub_eq(q, p, a, b, a + 8, b);
    }
    assert(leaf_cells(q) =~= leaf_cells(p));
}

// ---------------------------------------------------------------------------
// Internal nodes as (children, keys)
// ---------------------------------------------------------------------------

/// The separator keys of an internal node.
pub open spec fn internal_keys(p: Seq<u8>) -> Seq<i64> {
    Seq::new(internal_count(p) as nat, |i: int| entry_key(p, i))
}

/// The children of an internal node: entry children, then the right child.
pub open spec fn internal_children(p: Seq<u8>) -> Seq<u32> {
    Seq::new(
        (internal_count(p) + 1) as nat,
        |i: int| if i < internal_count(p) { entry_child(p, i) } else { right_child(p) },
    )
}

/// `pos` is where `key` goes among sorted separator keys.
pub open spec fn is_key_pos(keys: Seq<i64>, key: i64, pos: int) -> bool {
    &&& 0 <= pos <= keys.len()
    &&& forall|j: int| 0 <= j < pos ==> #[trigger] keys[j] < key
    &&& pos < keys.len() ==> keys[pos] >= key
}

/// Reads an internal node's children and keys.
fn read_internal(page: &[u8]) -> (r: (Vec<u32>, Vec<i64>))
    requires
        internal_wf(page@),
    ensures
        r.0@ == internal_children(page@),
        r.1@ == internal_keys(page@),
{
    let n = internal_num_keys(page) as usize;
    let mut children: Vec<u32> = Vec::new();
    let mut keys: Vec<i64> = Vec::new();
    let mut i: usize = 0;
    while i < n
        invariant
            i <= n,
            n == internal_count(page@),
            internal_wf(page@),
            children@ == internal_children(page@).take(i as int),
            keys@ == internal_keys(page@).take(i as int),
        decreases n - i,
    {
        children.push(internal_child(page, i));
        keys.push(internal_key(page, i));
        i = i + 1;
        assert(children@ =~= internal_children(page@).take(i as int));
        assert(keys@ =~= internal_keys(page@).take(i as int));
    }
    children.push(internal_right_child(page));
    assert(children@ =~= internal_children(page@));
    assert(keys@ =~= internal_keys(page@));
    (children, keys)
}

/// Writes an internal node with the given children and keys.
fn write_internal(page: &mut Vec<u8>, children: &Vec<u32>, keys: &Vec<i64>)
    requires
        old(page)@.len() == PAGE_SIZE,
        children@.len() == keys@.len() + 1,
        keys@.len() <= max_keys(),
    ensures
        internal_wf(final(page)@),
        internal_children(final(page)@) == children@,
        internal_keys(final(page)@) == keys@,
{
    let n = keys.len();
    init_internal(page);
    let ghost h = page@;
    put_u32(page, INTERNAL_NUM_KEYS_OFFSET, n as u32);
    let ghost h2 = page@;
    proof {
        lemma_same_outside_reads(h, h2, 1, 5);
        assert(h2.subrange(0, 1) == h.subrange(0, 1));
    }
    let mut i: usize = 0;
    while i < n
        invariant
            i <= n <= max_keys(),
            n == keys@.len(),
            children@.len() == n + 1,
            page@.len() == PAGE_SIZE,
            page@.subrange(0, INTERNAL_HEADER_SIZE as int) == h2.subrange(0, INTERNAL_HEADER_SIZE as int),
            forall|j: int| 0 <= j < i ==> #[trigger] entry_child(page@, j) == children@[j] && entry_key(page@, j) == keys@[j],
        decreases n - i,
    {
        let ghost p0 = page@;
        internal_set_entry(page, i, children[i], keys[i]);
        proof {
            let p1 = page@;
            lemma_same_outside_reads(p0, p1, entry_pos(i as int), entry_pos(i as int) + 12);
            assert(p1.subrange(0, 9) == p0.subrange(0, 9));
            assert forall|j: int| 0 <= j < i + 1 implies #[trigger] entry_child(p1, j) == children@[j] && entry_key(p1, j) == keys@[j] by {
                if j < i {
                    assert(entry_child(p0, j) == children@[j]);
                    assert(entry_key(p0, j) == keys@[j]);
                    assert(entry_pos(j) + 12 <= entry_pos(i as int));
                }
            }
        }
        i = i + 1;
    }
    let ghost p2 = page@;
    put_u32(page, RIGHT_CHILD_OFFSET, children[n]);
    proof {
        let f = page@;
        lemma_same_outside_reads(p2, f, 5, 9);
        lemma_sub_eq(p2, h2, 0, 9, 0, 1);
        lemma_sub_eq(p2, h2, 0, 9, 1, 5);
        assert(f.subrange(0, 1) == p2.subrange(0, 1));
        assert(f[0] == f.subrange(0, 1)[0]);
        assert(h[0] == h.subrange(0, 1)[0]);
        assert(h2[0] == h2.subrange(0, 1)[0]);
        assert(internal_count(f) == n);
        assert forall|j: int| 0 <= j < n implies #[trigger] entry_child(f, j) == children@[j] && entry_key(f, j) == keys@[j] by {
            assert(entry_child(p2, j) == children@[j]);
            assert(entry_key(p2, j) == keys@[j]);
            assert(i64_at(f, entry_pos(j) + 4) == i64_at(p2, entry_pos(j) + 4));
            assert(u32_at(f, entry_pos(j)) == u32_at(p2, entry_pos(j)));
        }
        assert forall|j: int| 0 <= j < n implies #[trigger] internal_keys(f)[j] == keys@[j] by {
            assert(entry_child(f, j) == children@[j]);
            assert(entry_key(f, j) == keys@[j]);
        }
        assert(internal_children(f) =~= children@);
        assert(internal_keys(f) =~= keys@);
    }
}

/// Where `key` goes among `keys`: after every smaller key.
fn key_position(keys: &Vec<i64>, key: i64) -> (pos: usize)
    ensures
        is_key_pos(keys@, key, pos as int),
{
    let mut pos: usize = 0;
    while pos < keys.len() && keys[pos] < key
        invariant
            pos <= keys@.len(),
            forall|j: int| 0 <= j < pos ==> keys@[j] < key,
        decreases keys@.len() - pos,
    {
        pos = pos + 1;
    }
    pos
}

/// Insert (key, right_child) into an internal node that has room: the key
/// goes after every smaller key, and `right_child` becomes the child just
/// right of it.
fn insert_into_internal(pager: &mut Pager, page_num: u32, key: i64, right_child: u32) -> (r: Result<(), String>)
    requires
        old(pager).wf(),
        page_num < MAX_PAGES,
        internal_wf(old(pager)@.page(page_num as int)),
        internal_count(old(pager)@.page(page_num as int)) < max_keys(),
    ensures
        r is Ok,
        final(pager).wf(),
        unchanged_except(old(pager)@, final(pager)@, set![page_num as int]),
        final(pager)@.file_pages == old(pager)@.file_pages,
        ({
            let o = old(pager)@.page(page_num as int);
            let f = final(pager)@.page(page_num as int);
            &&& internal_wf(f)
            &&& exists|pos: int|
                is_key_pos(internal_keys(o), key, pos) && internal_keys(f) == internal_keys(o).insert(pos, key)
                    && internal_children(f) == internal_children(o).insert(pos + 1, right_child)
        }),
{
    proof {
        lemma_leaf_in_file(pager@, page_num as int);
    }
    let mut page = match pager.get_page(page_num) {
        Ok(p) => p,
        Err(e) => {
            return Err(e);
        },
    };
    let (mut children, mut keys) = read_internal(page.as_slice());
    let pos = key_position(&keys, key);
    keys.insert(pos, key);
    children.insert(pos + 1, right_child);
    write_internal(&mut page, &children, &keys);
    match pager.write_page(page_num, page.as_slice()) {
        Ok(_) => {},
        Err(e) => {
            return Err(e);
        },
    }
    Ok(())
}

/// The children and keys a full internal node has once (key, right_child) is added.
pub open spec fn internal_after_insert(p: Seq<u8>, key: i64, right_child: u32, pos: int) -> (Seq<u32>, Seq<i64>) {
    (internal_children(p).insert(pos + 1, right_child), internal_keys(p).insert(pos, key))
}

/// Split a full internal node on insertion of (key, right_child). With the
/// new key in place there are `max_keys() + 1` keys; the middle one moves
/// up, the keys before it stay (with their children), the keys after it go
/// to a new node. Returns (middle key, new page).
fn split_internal(pager: &mut Pager, page_num: u32, key: i64, right_child: u32) -> (r: Result<(i64, u32), String>)
    requires
        old(pager).wf(),
        page_num < MAX_PAGES,
        internal_wf(old(pager)@.page(page_num as int)),
        internal_count(old(pager)@.page(page_num as int)) == max_keys(),
    ensures
        final(pager).wf(),
        match r {
            Ok((median, new_page)) => {
                let o = old(pager)@.page(page_num as int);
                let left = final(pager)@.page(page_num as int);
                let right = final(pager)@.page(new_page as int);
                let mid = (max_keys() + 1) / 2;
                &&& new_page == old(pager)@.file_pages
                &&& new_page < MAX_PAGES
                &&& final(pager)@.file_pages == old(pager)@.file_pages + 1
                &&& unchanged_except(old(pager)@, final(pager)@, set![page_num as int, new_page as int])
                &&& internal_wf(left) && internal_wf(right)
                &&& exists|pos: int|
                    #![trigger is_key_pos(internal_keys(o), key, pos)]
                    {
                        let (cs, ks) = internal_after_insert(o, key, right_child, pos);
                        &&& is_key_pos(internal_keys(o), key, pos)
                        &&& median == ks[mid]
                        &&& internal_keys(left) == ks.take(mid)
                        &&& internal_children(left) == cs.take(mid + 1)
                        &&& internal_keys(right) == ks.skip(mid + 1)
                        &&& internal_children(right) == cs.skip(mid + 1)
                    }
            },
            Err(_) => old(pager)@.file_pages >= MAX_PAGES && *final(pager) == *old(pager),
        },
{
    proof {
        lemma_leaf_in_file(pager@, page_num as int);
    }
    let ghost o = pager@.page(page_num as int);
    let page = match pager.read_page(page_num) {
        Ok(p) => p,
        Err(e) => {
            return Err(e);
        },
    };
    let (mut children, mut keys) = read_internal(page.as_slice());
    let pos = key_position(&keys, key);
    keys.insert(pos, key);
    children.insert(pos + 1, right_child);
    let ghost cs = children@;
    let ghost ks = keys@;
    let total = keys.len();
    let mid = total / 2;
    let median_key = keys[mid];
    let right_keys = keys.split_off(mid + 1);
    let right_children = children.split_off(mid + 1);
    keys.truncate(mid);
    proof {
        assert(keys@ =~= ks.take(mid as int));
        assert(children@ =~= cs.take(mid + 1));
        assert(right_keys@ =~= ks.skip(mid + 1));
        assert(right_children@ =~= cs.skip(mid + 1));
    }
    let new_page = match pager.allocate_page() {
        Ok(p) => p,
        Err(e) => {
            return Err(e);
        },
    };
    let mut left_page = page;
    write_internal(&mut left_page, &children, &keys);
    match pager.write_page(page_num, left_page.as_slice()) {
        Ok(_) => {},
        Err(e) => {
            return Err(e);
        },
    }
    let mut right_page = match pager.read_page(new_page) {
        Ok(p) => p,
        Err(e) => {
            return Err(e);
        },
    };
    write_internal(&mut right_page, &right_children, &right_keys);
    match pager.write_page(new_page, right_page.as_slice()) {
        Ok(_) => {},
        Err(e) => {
            return Err(e);
        },
    }
    proof {
        assert(is_key_pos(internal_keys(o), key, pos as int));
    }
    Ok((median_key, new_page))
}

// ---------------------------------------------------------------------------
// Public API
// ---------------------------------------------------------------------------

/// Only the pages changed: the committed file, the transaction state and
/// the queued commits are as they were.
pub open spec fn only_pages_changed(m1: PagerModel, m2: PagerModel) -> bool {
    &&& m2.disk == m1.disk
    &&& m2.in_transaction == m1.in_transaction
    &&& m2.txn_id == m1.txn_id
    &&& m2.pending == m1.pending
}

/// Create a new B+Tree: allocates a single leaf page and returns its page number.
pub fn create_tree(pager: &mut Pager) -> (r: Result<u32, String>)
    requires
        old(pager).wf(),
    ensures
        final(pager).wf(),
        match r {
            Ok(n) => {
                &&& n == old(pager)@.file_pages
                &&& final(pager)@.file_pages == n + 1
                &&& unchanged_except(old(pager)@, final(pager)@, set![n as int])
                &&& leaf_wf(final(pager)@.page(n as int))
                &&& leaf_cells(final(pager)@.page(n as int)).len() == 0
                &&& leaf_next(final(pager)@.page(n as int)) == 0
                &&& free_space(final(pager)@.page(n as int)) == PAGE_SIZE - LEAF_HEADER_SIZE
                &&& tree_ok(final(pager)@, n as int) && scan_rows(final(pager)@, n as int) == Some(
                    Seq::<Seq<u8>>::empty(),
                ) && sorted_tree(final(pager)@, n as int) && scan_cells(final(pager)@, n as int) == Some(
                    Seq::<(i64, Seq<u8>)>::empty(),
                )
            },
            Err(_) => old(pager)@.file_pages >= MAX_PAGES && *final(pager) == *old(pager),
        },
{
    let page_num = match pager.allocate_page() {
        Ok(n) => n,
        Err(e) => {
            return Err(e);
        },
    };
    let mut page = match pager.read_page(page_num) {
        Ok(p) => p,
        Err(e) => {
            return Err(e);
        },
    };
    init_leaf(&mut page);
    match pager.write_page(page_num, page.as_slice()) {
        Ok(_) => {},
        Err(e) => {
            return Err(e);
        },
    }
    proof {
        let m = pager@;
        let n = page_num as int;
        let ps = seq![n];
        assert(ps.contains(0) ==> n == 0) by {
            if ps.contains(0) {
                let t = choose|t: int| 0 <= t < ps.len() && ps[t] == 0;
                assert(ps[t] == n);
            }
        }
        assert(ps.contains(n)) by {
            assert(ps[0] == n);
        }
        assert(node_ok(m, n, set![n], ps));
        assert(leftmost_leaf(m, n, m.file_pages) == Some(n));
        assert(chain_pages(m, n, m.file_pages) == Some(ps));
        {
            assert(shape(m, n, set![n], ps));
            lemma_scan_shape(m, n, set![n], ps);
            lemma_rows_single(m, n);
            assert(leaf_rows(m.page(n)) =~= Seq::<Seq<u8>>::empty());
            crate::order::lemma_new_tree_keyed(m, n);
            crate::order::lemma_scan_cells_shape(m, n, set![n], ps);
            assert(seq![n].drop_first() =~= Seq::<int>::empty());
            assert(cells_of(m, ps) =~= Seq::<(i64, Seq<u8>)>::empty());
            assert(shape(m, n, set![n], ps) && keyed(
                m,
                n,
                set![n],
                ps,
                map![n => (crate::order::key_floor(), crate::order::key_ceil())],
                Map::<int, int>::empty(),
            ));
        }
    }
    Ok(page_num)
}

/// The error for a row too large for a leaf:
/// "Row too large (N bytes). Maximum is M bytes.", M being `max_row_data_size`.
pub open spec fn row_too_large_text(len: nat) -> Seq<char> {
    "Row too large ("@ + decimal(len) + " bytes). Maximum is "@ + decimal(((PAGE_SIZE - LEAF_HEADER_SIZE) / 2 - SLOT_SIZE - KEY_SIZE) as nat)
        + " bytes."@
}

/// "Row too large (N bytes). Maximum is M bytes."
fn row_too_large(len: usize) -> (s: String)
    ensures
        s@ == row_too_large_text(len as nat),
{
    let a = concat("Row too large (", decimal_string(len as u64).as_str());
    let b = concat(a.as_str(), " bytes). Maximum is ");
    let c = concat(b.as_str(), decimal_string(max_row_data_size() as u64).as_str());
    concat(c.as_str(), " bytes.")
}

/// The key order after a leaf of the descent splits: the insert is pending
/// at the leaf's parent, and the descent to the leaf still holds.
#[verifier::rlimit(80)]
proof fn lemma_split_leaf_order(
    m0: PagerModel,
    m1: PagerModel,
    root: int,
    nodes: Set<int>,
    ps: Seq<int>,
    b0: Map<int, (int, int)>,
    par0: Map<int, int>,
    path: Seq<(u32, usize)>,
    cur: u32,
    j: int,
    new_leaf: u32,
    key: i64,
    row: Seq<u8>,
    pos: int,
    k: int,
    median: i64,
)
    requires
        crate::pager::pager_wf(m0),
        shape(m0, root, nodes, ps),
        keyed(m0, root, nodes, ps, b0, par0),
        descent_ok(m0, root, par0, path, cur as int),
        nodes.contains(cur as int),
        forall|t: int| 0 <= t < path.len() ==> nodes.contains(#[trigger] path[t].0 as int),
        0 <= j < ps.len(),
        ps[j] == cur as int,
        leaf_wf(m0.page(cur as int)),
        b0[cur as int].0 < key < b0[cur as int].1,
        forall|i: int|
            0 <= i < leaf_cells(m0.page(cur as int)).len() ==> (#[trigger] leaf_cells(m0.page(cur as int))[i]).0 != key,
        new_leaf == m0.file_pages,
        unchanged_except(m0, m1, set![cur as int, new_leaf as int]),
        leaf_wf(m1.page(cur as int)),
        leaf_wf(m1.page(new_leaf as int)),
        ({
            let oc = leaf_cells(m0.page(cur as int));
            let all = oc.insert(pos, (key, row));
            &&& is_insert_pos(oc, key, pos)
            &&& is_split_count(all, k)
            &&& leaf_cells(m1.page(cur as int)) == all.take(split_point(all, k))
            &&& leaf_cells(m1.page(new_leaf as int)) == all.skip(split_point(all, k))
            &&& median == all[split_point(all, k)].0
        }),
    ensures
        pending(
            m1,
            root,
            nodes.insert(new_leaf as int),
            ps.insert(j + 1, new_leaf as int),
            crate::order::split_bounds(b0, cur as int, new_leaf as int, median as int),
            par0,
            cur as int,
            new_leaf as int,
            median,
            pp_of(path, path.len() as int),
            pi_of(path, path.len() as int),
        ),
        descent_ok(m1, root, par0, path.take(path.len() as int), cur as int),
{
    let l = cur as int;
    let oc = leaf_cells(m0.page(l));
    let all = oc.insert(pos, (key, row));
    let c = split_point(all, k);
    lemma_fit_count_bound(all, 0);
    crate::order::lemma_keyed_leaf(m0, root, nodes, ps, b0, par0, j);
    crate::order::lemma_insert_cell_keys(oc, pos, (key, row), b0[l]);
    assert(0 <= c < all.len());
    assert(b0[l].0 < all[c].0) by {
        if c > 0 {
            assert(all[0].0 < all[c].0);
            assert(b0[l].0 <= all[0].0);
        } else {
            assert(all.len() == 1);
            assert(all[0] == (key, row));
        }
    }
    assert(c == 0 ==> j == 0);
    crate::shape::lemma_chain_leaves(m0, ps[0], m0.file_pages);
    crate::shape::lemma_nodes_in_file(m0, root, nodes, ps);
    assert(!ps.contains(new_leaf as int)) by {
        if ps.contains(new_leaf as int) {
            let t = choose|t: int| 0 <= t < ps.len() && ps[t] == new_leaf as int;
            assert(0 <= ps[t] < m0.file_pages);
        }
    }
    crate::order::lemma_descent_parent(m0, root, par0, path, l, path.len() as int);
    crate::order::lemma_leaf_split_pending(
        m0,
        m1,
        root,
        nodes,
        ps,
        b0,
        par0,
        j,
        new_leaf as int,
        all,
        c,
        pp_of(path, path.len() as int),
        pi_of(path, path.len() as int),
    );
    assert forall|t: int| 0 <= t < path.len() implies m1.page(#[trigger] path[t].0 as int) == m0.page(
        path[t].0 as int,
    ) by {
        assert(nodes.contains(path[t].0 as int));
        assert(path[t].0 as int != l);
    }
    crate::order::lemma_descent_frame(m0, m1, root, par0, path, l);
    assert(path.take(path.len() as int) =~= path);
}

/// The key order once the separator of a pending split is added to the
/// parent, which has room.
#[verifier::rlimit(60)]
proof fn lemma_parent_insert_order(
    m1: PagerModel,
    m2: PagerModel,
    root: int,
    nodes: Set<int>,
    ps: Seq<int>,
    b: Map<int, (int, int)>,
    par: Map<int, int>,
    path: Seq<(u32, usize)>,
    cur: int,
    k: int,
    pc: u32,
    pkey: i64,
    f0: nat,
)
    requires
        crate::pager::pager_wf(m1),
        split_state(m1, root, nodes, ps, f0),
        0 <= k < path.len(),
        pending(m1, root, nodes, ps, b, par, x_of(path, cur, k + 1), pc as int, pkey, pp_of(path, k + 1), pi_of(path, k + 1)),
        internal_wf(m1.page(path[k].0 as int)),
        unchanged_except(m1, m2, set![path[k].0 as int]),
        internal_wf(m2.page(path[k].0 as int)),
        ({
            let o = m1.page(path[k].0 as int);
            let f = m2.page(path[k].0 as int);
            exists|pos: int|
                is_key_pos(internal_keys(o), pkey, pos) && internal_keys(f) == internal_keys(o).insert(pos, pkey)
                    && internal_children(f) == internal_children(o).insert(pos + 1, pc)
        }),
    ensures
        keyed(m2, root, nodes, ps, b, par.insert(pc as int, path[k].0 as int)),
{
    let pp = path[k].0 as int;
    let o = m1.page(pp);
    let f = m2.page(pp);
    let pos = choose|pos: int|
        is_key_pos(internal_keys(o), pkey, pos) && internal_keys(f) == internal_keys(o).insert(pos, pkey)
            && internal_children(f) == internal_children(o).insert(pos + 1, pc);
    assert(pp_of(path, k + 1) == pp);
    crate::shape::lemma_chain_leaves(m1, ps[0], f0 + 1);
    assert(!ps.contains(pp)) by {
        if ps.contains(pp) {
            let t = choose|t: int| 0 <= t < ps.len() && ps[t] == pp;
            assert(leaf_wf(m1.page(ps[t])));
        }
    }
    crate::order::lemma_pending_insert(
        m1,
        m2,
        root,
        nodes,
        ps,
        b,
        par,
        x_of(path, cur, k + 1),
        pc as int,
        pkey,
        pp,
        pi_of(path, k + 1),
        pos,
    );
}

/// The key order once a pending split reaches a full parent, which splits
/// in turn: the insert is pending one level up, and the descent down to
/// that level holds. Returns the parents after the split.
#[verifier::rlimit(80)]
proof fn lemma_parent_split_order(
    m1: PagerModel,
    m2: PagerModel,
    root: int,
    nodes: Set<int>,
    ps: Seq<int>,
    b: Map<int, (int, int)>,
    par: Map<int, int>,
    path: Seq<(u32, usize)>,
    cur: int,
    k: int,
    pc: u32,
    pkey: i64,
    f0: nat,
    np: u32,
    nmed: i64,
    nodes0: Set<int>,
) -> (par2: Map<int, int>)
    requires
        crate::pager::pager_wf(m1),
        split_state(m1, root, nodes, ps, f0),
        0 <= k < path.len(),
        pending(m1, root, nodes, ps, b, par, x_of(path, cur, k + 1), pc as int, pkey, pp_of(path, k + 1), pi_of(path, k + 1)),
        descent_ok(m1, root, par, path.take(k + 1), x_of(path, cur, k + 1)),
        nodes0.subset_of(nodes),
        forall|t: int| 0 <= t < path.len() ==> nodes0.contains(#[trigger] path[t].0 as int),
        internal_wf(m1.page(path[k].0 as int)),
        internal_count(m1.page(path[k].0 as int)) == max_keys(),
        ({
            let o = m1.page(path[k].0 as int);
            let left = m2.page(path[k].0 as int);
            let right = m2.page(np as int);
            let mid = (max_keys() + 1) / 2;
            &&& np == m1.file_pages
            &&& m2.file_pages == m1.file_pages + 1
            &&& unchanged_except(m1, m2, set![path[k].0 as int, np as int])
            &&& internal_wf(left) && internal_wf(right)
            &&& exists|pos: int|
                #![trigger is_key_pos(internal_keys(o), pkey, pos)]
                {
                    let (cs, ks) = internal_after_insert(o, pkey, pc, pos);
                    &&& is_key_pos(internal_keys(o), pkey, pos)
                    &&& nmed == ks[mid]
                    &&& internal_keys(left) == ks.take(mid)
                    &&& internal_children(left) == cs.take(mid + 1)
                    &&& internal_keys(right) == ks.skip(mid + 1)
                    &&& internal_children(right) == cs.skip(mid + 1)
                }
        }),
    ensures
        pending(
            m2,
            root,
            nodes.insert(np as int),
            ps,
            crate::order::split_bounds(b, path[k].0 as int, np as int, nmed as int),
            par2,
            x_of(path, cur, k),
            np as int,
            nmed,
            pp_of(path, k),
            pi_of(path, k),
        ),
        descent_ok(m2, root, par2, path.take(k), x_of(path, cur, k)),
{
    let pp = path[k].0 as int;
    let o = m1.page(pp);
    let mid = (max_keys() + 1) / 2;
    let pos = choose|pos: int|
        #![trigger is_key_pos(internal_keys(o), pkey, pos)]
        {
            let (cs, ks) = internal_after_insert(o, pkey, pc, pos);
            &&& is_key_pos(internal_keys(o), pkey, pos)
            &&& nmed == ks[mid]
            &&& internal_keys(m2.page(pp)) == ks.take(mid)
            &&& internal_children(m2.page(pp)) == cs.take(mid + 1)
            &&& internal_keys(m2.page(np as int)) == ks.skip(mid + 1)
            &&& internal_children(m2.page(np as int)) == cs.skip(mid + 1)
        };
    assert(pp_of(path, k + 1) == pp);
    crate::shape::lemma_chain_leaves(m1, ps[0], f0 + 1);
    crate::shape::lemma_nodes_in_file(m1, root, nodes, ps);
    assert(!ps.contains(pp)) by {
        if ps.contains(pp) {
            let t = choose|t: int| 0 <= t < ps.len() && ps[t] == pp;
            assert(leaf_wf(m1.page(ps[t])));
        }
    }
    assert(!ps.contains(np as int)) by {
        if ps.contains(np as int) {
            let t = choose|t: int| 0 <= t < ps.len() && ps[t] == np as int;
            assert(0 <= ps[t] < m1.file_pages);
        }
    }
    assert(!nodes.contains(np as int));
    let p1 = path.take(k + 1);
    crate::order::lemma_descent_parent(m1, root, par, p1, x_of(path, cur, k + 1), k);
    assert(p1[k] == path[k]);
    assert(x_of(p1, x_of(path, cur, k + 1), k) == pp);
    assert(pp_of(p1, k) == pp_of(path, k) && pi_of(p1, k) == pi_of(path, k)) by {
        if k > 0 {
            assert(p1[k - 1] == path[k - 1]);
        }
    }
    assert(pp != root ==> nodes.contains(pp_of(path, k))) by {
        if k > 0 {
            assert(nodes0.contains(path[k - 1].0 as int));
        }
    }
    crate::order::lemma_pending_split(
        m1,
        m2,
        root,
        nodes,
        ps,
        b,
        par,
        x_of(path, cur, k + 1),
        pc as int,
        pkey,
        pp,
        pi_of(path, k + 1),
        pos,
        np as int,
        mid,
        pp_of(path, k),
        pi_of(path, k),
    );
    let moved = crate::order::children_with(o, pos, pc as int).skip(mid + 1);
    let par2 = crate::order::split_parents(par, pc as int, pp, moved, np as int);
    assert forall|t: int| 0 <= t < k implies m2.page(#[trigger] p1[t].0 as int) == m1.page(p1[t].0 as int) by {
        assert(p1[t] == path[t]);
        assert(p1[t].0 != p1[k].0);
        assert(nodes0.contains(path[t].0 as int));
    }
    crate::order::lemma_descent_prefix(m1, m2, root, par, par2, p1, x_of(path, cur, k + 1), k);
    assert(p1.take(k) =~= path.take(k));
    assert(x_of(path, cur, k) == pp);
    par2
}

/// The key order once a pending split of the root gets a new root.
proof fn lemma_new_root_order(
    m1: PagerModel,
    m2: PagerModel,
    root: int,
    nodes: Set<int>,
    ps: Seq<int>,
    b: Map<int, (int, int)>,
    par: Map<int, int>,
    path: Seq<(u32, usize)>,
    cur: int,
    pc: u32,
    pkey: i64,
    f0: nat,
    nr: u32,
)
    requires
        crate::pager::pager_wf(m1),
        split_state(m1, root, nodes, ps, f0),
        pending(m1, root, nodes, ps, b, par, x_of(path, cur, 0), pc as int, pkey, pp_of(path, 0), pi_of(path, 0)),
        descent_ok(m1, root, par, path.take(0), x_of(path, cur, 0)),
        0 <= root <= u32::MAX,
        nr == m1.file_pages,
        forall|p: int| p != nr ==> #[trigger] m2.page(p) == m1.page(p),
        internal_wf(m2.page(nr as int)),
        internal_keys(m2.page(nr as int)) == seq![pkey],
        internal_children(m2.page(nr as int)) == seq![root as u32, pc],
    ensures
        keyed(
            m2,
            nr as int,
            nodes.insert(nr as int),
            ps,
            b.insert(nr as int, (crate::order::key_floor(), crate::order::key_ceil())),
            par.insert(root, nr as int).insert(pc as int, nr as int),
        ),
{
    assert(x_of(path, cur, 0) == root);
    crate::shape::lemma_chain_leaves(m1, ps[0], f0 + 1);
    crate::shape::lemma_nodes_in_file(m1, root, nodes, ps);
    assert(!ps.contains(nr as int)) by {
        if ps.contains(nr as int) {
            let t = choose|t: int| 0 <= t < ps.len() && ps[t] == nr as int;
            assert(0 <= ps[t] < m1.file_pages);
        }
    }
    assert(!nodes.contains(nr as int));
    crate::order::lemma_pending_root(m1, m2, root, nodes, ps, b, par, pc as int, pkey, -1, nr as int);
}

/// Whether an insert of `key` keeps the key order: the tree's keys are in
/// order and it does not hold `key`.
pub open spec fn insert_sorted(m: PagerModel, root: int, key: i64) -> bool {
    sorted_tree(m, root) && key_absent(m, root, key)
}

/// A sound tree's nodes and chain, with its bounds and parents where its
/// keys are in order.
pub open spec fn keyed_witness(m: PagerModel, root: int) -> (Set<int>, Seq<int>, Map<int, (int, int)>, Map<int, int>) {
    choose|n: Set<int>, p: Seq<int>, bb: Map<int, (int, int)>, pr: Map<int, int>|
        shape(m, root, n, p) && keyed(m, root, n, p, bb, pr)
}

/// A sound tree's nodes and chain.
pub open spec fn shape_witness(m: PagerModel, root: int) -> (Set<int>, Seq<int>) {
    choose|n: Set<int>, p: Seq<int>| shape(m, root, n, p)
}

/// The nodes an insert of `key` walks in: those of the key order where it
/// is kept, else those of the tree's shape.
pub open spec fn walk_nodes(m: PagerModel, root: int, key: i64) -> Set<int> {
    if insert_sorted(m, root, key) {
        keyed_witness(m, root).0
    } else {
        shape_witness(m, root).0
    }
}

/// The chain an insert of `key` walks in (see `walk_nodes`).
pub open spec fn walk_chain(m: PagerModel, root: int, key: i64) -> Seq<int> {
    if insert_sorted(m, root, key) {
        keyed_witness(m, root).1
    } else {
        shape_witness(m, root).1
    }
}

/// The bounds of the key order an insert walks in.
pub open spec fn walk_bounds(m: PagerModel, root: int) -> Map<int, (int, int)> {
    keyed_witness(m, root).2
}

/// The parents of the key order an insert walks in.
pub open spec fn walk_parents(m: PagerModel, root: int) -> Map<int, int> {
    keyed_witness(m, root).3
}

proof fn lemma_walk_witness(m: PagerModel, root: int, key: i64)
    ensures
        tree_ok(m, root) ==> shape(m, root, walk_nodes(m, root, key), walk_chain(m, root, key)),
        insert_sorted(m, root, key) ==> tree_ok(m, root) && keyed(
            m,
            root,
            walk_nodes(m, root, key),
            walk_chain(m, root, key),
            walk_bounds(m, root),
            walk_parents(m, root),
        ),
{
    if insert_sorted(m, root, key) {
        let w = keyed_witness(m, root);
        assert(shape(m, root, w.0, w.1));
    }
}

/// Where `key` goes among separator keys, looking from position `i` on: the
/// first key that is not below it, or the number of keys when all are.
pub open spec fn key_index(ks: Seq<i64>, key: i64, i: nat) -> nat
    decreases ks.len() - i,
{
    if i < ks.len() && ks[i as int] < key {
        key_index(ks, key, i + 1)
    } else {
        i
    }
}

/// The leaf that `key` is routed to from page `p`, within `fuel` steps: at
/// an internal node, the child after every separator below the key; `None`
/// where a page is out of range, neither a sound leaf nor an internal node,
/// or the fuel runs out.
pub open spec fn route_leaf(m: PagerModel, p: int, key: i64, fuel: nat) -> Option<int>
    decreases fuel,
{
    if fuel == 0 || !(0 <= p < MAX_PAGES) {
        None
    } else {
        let page = m.page(p);
        if page[0] == NODE_TYPE_LEAF {
            if leaf_wf(page) {
                Some(p)
            } else {
                None
            }
        } else if internal_wf(page) {
            route_leaf(
                m,
                internal_children(page)[key_index(internal_keys(page), key, 0) as int] as int,
                key,
                (fuel - 1) as nat,
            )
        } else {
            None
        }
    }
}

/// How many internal nodes the route of `key` from `p` passes (see `route_leaf`).
pub open spec fn route_depth(m: PagerModel, p: int, key: i64, fuel: nat) -> nat
    decreases fuel,
{
    if fuel == 0 || !(0 <= p < MAX_PAGES) {
        0
    } else {
        let page = m.page(p);
        if page[0] == NODE_TYPE_LEAF {
            0
        } else if internal_wf(page) {
            1 + route_depth(
                m,
                internal_children(page)[key_index(internal_keys(page), key, 0) as int] as int,
                key,
                (fuel - 1) as nat,
            )
        } else {
            0
        }
    }
}

proof fn lemma_key_index(ks: Seq<i64>, key: i64, i: nat, idx: int)
    requires
        i <= idx <= ks.len(),
        forall|j: int| 0 <= j < idx ==> key > #[trigger] ks[j],
        idx < ks.len() ==> key <= ks[idx],
    ensures
        key_index(ks, key, i) == idx,
    decreases idx - i,
{
    if i < idx {
        lemma_key_index(ks, key, i + 1, idx);
    }
}

/// The descent of an insert of `key`: from the root, at each internal node
/// to the child after every separator below the key, down to a leaf.
/// Returns the steps (node, child index), the leaf and its page.
fn find_leaf(pager: &Pager, root_page: u32, key: i64) -> (r: Result<(Vec<(u32, usize)>, u32, Vec<u8>), String>)
    requires
        pager.wf(),
    ensures
        match r {
            Ok((path, cur, leaf)) => {
                let m = pager@;
                let root = root_page as int;
                let nodes = walk_nodes(m, root, key);
                let ps = walk_chain(m, root, key);
                let b = walk_bounds(m, root);
                &&& leaf_wf(m.page(cur as int))
                &&& leaf@ == m.page(cur as int)
                &&& tree_ok(m, root) ==> nodes.contains(cur as int) && ps.contains(cur as int) && forall|i: int|
                    0 <= i < path@.len() ==> nodes.contains(#[trigger] path@[i].0 as int)
                &&& insert_sorted(m, root, key) ==> descent_ok(m, root, walk_parents(m, root), path@, cur as int)
                    && b.dom().contains(cur as int) && b[cur as int].0 < key <= b[cur as int].1
                &&& route_leaf(m, root, key, MAX_PAGES as nat) == Some(cur as int)
                &&& cur < MAX_PAGES
                &&& path@.len() == route_depth(m, root, key, MAX_PAGES as nat)
                &&& forall|i: int|
                    0 <= i < path@.len() ==> #[trigger] path@[i].0 < MAX_PAGES && internal_wf(m.page(path@[i].0 as int))
            },
            Err(_) => route_leaf(pager@, root_page as int, key, MAX_PAGES as nat) is None,
        },
{
    let ghost m0 = pager@;
    let ghost root = root_page as int;
    let ghost ok = tree_ok(m0, root);
    let ghost sorted = insert_sorted(m0, root, key);
    let ghost nodes = walk_nodes(m0, root, key);
    let ghost ps = walk_chain(m0, root, key);
    let ghost b0 = walk_bounds(m0, root);
    let ghost par0 = walk_parents(m0, root);
    proof {
        lemma_walk_witness(m0, root, key);
        if sorted {
            crate::order::lemma_keyed_leaf(m0, root, nodes, ps, b0, par0, 0);
        }
    }
    let mut path: Vec<(u32, usize)> = Vec::new();
    let mut cur = root_page;
    let mut depth: usize = 0;
    loop
        invariant
            pager.wf(),
            m0 == pager@,
            depth <= MAX_PAGES,
            ok == tree_ok(m0, root),
            sorted == insert_sorted(m0, root, key),
            root == root_page as int,
            ok ==> shape(m0, root, nodes, ps),
            ok ==> nodes.contains(cur as int),
            ok ==> forall|i: int| 0 <= i < path@.len() ==> nodes.contains(#[trigger] path@[i].0 as int),
            sorted ==> ok,
            sorted ==> keyed(m0, root, nodes, ps, b0, par0),
            sorted ==> descent_ok(m0, root, par0, path@, cur as int),
            sorted ==> b0.dom().contains(cur as int) && b0[cur as int].0 < key <= b0[cur as int].1,
            route_leaf(m0, root, key, MAX_PAGES as nat) == route_leaf(m0, cur as int, key, (MAX_PAGES - depth) as nat),
            route_depth(m0, root, key, MAX_PAGES as nat) == path@.len() + route_depth(
                m0,
                cur as int,
                key,
                (MAX_PAGES - depth) as nat,
            ),
            path@.len() == depth,
            forall|i: int|
                0 <= i < path@.len() ==> #[trigger] path@[i].0 < MAX_PAGES && internal_wf(m0.page(path@[i].0 as int)),
        ensures
            ok ==> nodes.contains(cur as int),
            ok ==> forall|i: int| 0 <= i < path@.len() ==> nodes.contains(#[trigger] path@[i].0 as int),
            sorted ==> descent_ok(m0, root, par0, path@, cur as int),
            sorted ==> b0.dom().contains(cur as int) && b0[cur as int].0 < key <= b0[cur as int].1,
            route_leaf(m0, root, key, MAX_PAGES as nat) == route_leaf(m0, cur as int, key, (MAX_PAGES - depth) as nat),
            route_depth(m0, root, key, MAX_PAGES as nat) == path@.len() + route_depth(
                m0,
                cur as int,
                key,
                (MAX_PAGES - depth) as nat,
            ),
            path@.len() == depth,
            forall|i: int|
                0 <= i < path@.len() ==> #[trigger] path@[i].0 < MAX_PAGES && internal_wf(m0.page(path@[i].0 as int)),
            depth < MAX_PAGES,
            cur < MAX_PAGES,
            m0.page(cur as int)[0] == NODE_TYPE_LEAF,
        decreases MAX_PAGES - depth,
    {
        if depth >= MAX_PAGES {
            return Err(err("Corrupt tree: no leaf below the root."));
        }
        let page = match pager.read_page(cur) {
            Ok(p) => p,
            Err(e) => {
                return Err(e);
            },
        };
        if page[0] == NODE_TYPE_LEAF {
            break;
        }
        if page[0] != NODE_TYPE_INTERNAL || internal_num_keys(page.as_slice()) as usize > internal_max_keys() {
            return Err(err("Corrupt internal node."));
        }
        let nk = internal_num_keys(page.as_slice()) as usize;
        let mut idx: usize = 0;
        while idx < nk && key > internal_key(page.as_slice(), idx)
            invariant
                idx <= nk,
                nk == internal_count(page@),
                internal_wf(page@),
                forall|j: int| 0 <= j < idx ==> key > #[trigger] internal_keys(page@)[j],
            decreases nk - idx,
        {
            idx = idx + 1;
        }
        let child = if idx < nk {
            internal_child(page.as_slice(), idx)
        } else {
            internal_right_child(page.as_slice())
        };
        proof {
            assert(child == internal_children(page@)[idx as int]);
            lemma_key_index(internal_keys(page@), key, 0, idx as int);
            if ok {
                assert(node_ok(m0, cur as int, nodes, ps));
            }
            if sorted {
                assert(routes_to(internal_keys(page@), key, idx as int));
                lemma_descent_step(m0, root, nodes, ps, b0, par0, path@, cur, key, idx, child);
            }
        }
        let ghost path0 = path@;
        path.push((cur, idx));
        proof {
            assert forall|i: int| ok && 0 <= i < path@.len() implies nodes.contains(#[trigger] path@[i].0 as int) by {
                if i < path0.len() {
                    assert(path@[i] == path0[i]);
                }
            }
            assert forall|i: int| 0 <= i < path@.len() implies #[trigger] path@[i].0 < MAX_PAGES && internal_wf(
                m0.page(path@[i].0 as int),
            ) by {
                if i < path0.len() {
                    assert(path@[i] == path0[i]);
                }
            }
        }
        cur = child;
        depth = depth + 1;
    }
    let leaf = match pager.read_page(cur) {
        Ok(p) => p,
        Err(e) => {
            return Err(e);
        },
    };
    if !leaf_valid(leaf.as_slice()) {
        return Err(err("Corrupt leaf page."));
    }
    proof {
        if ok {
            assert(node_ok(m0, cur as int, nodes, ps));
            assert(ps.contains(cur as int));
        }
    }
    Ok((path, cur, leaf))
}

/// `after` is `before` with `row` added at some position.
pub open spec fn row_added(before: Option<Seq<Seq<u8>>>, after: Option<Seq<Seq<u8>>>, row: Seq<u8>) -> bool {
    &&& before is Some
    &&& after is Some
    &&& exists|i: int|
        0 <= i <= before.unwrap().len() && after.unwrap() == #[trigger] before.unwrap().insert(i, row)
}

proof fn lemma_row_added(before: Seq<Seq<u8>>, after: Seq<Seq<u8>>, i: int, row: Seq<u8>)
    requires
        0 <= i <= before.len(),
        after == before.insert(i, row),
    ensures
        row_added(Some(before), Some(after), row),
{
    assert(Some(before).unwrap().insert(i, row) == after);
}

/// Whether a leaf page has room for one more cell with `row_len` row bytes.
pub open spec fn leaf_has_room(p: Seq<u8>, row_len: int) -> bool {
    (if leaf_data_start(p) > slots_end(leaf_count(p) as int) {
        free_space(p)
    } else {
        0
    }) >= cell_cost(row_len)
}

/// When an insert is owed success: the row is within `max_row_len`, the
/// key routes to a leaf, and either that leaf has room for the cell, or its
/// cells fit in a page and the file has room for a page per node on the
/// route and one for a new root.
pub open spec fn insert_owed(m: PagerModel, root: int, key: i64, row: Seq<u8>) -> bool {
    &&& row.len() <= max_row_len()
    &&& route_leaf(m, root, key, MAX_PAGES as nat) matches Some(l) && (leaf_has_room(m.page(l), row.len() as int) || (
    cells_cost(leaf_cells(m.page(l))) <= leaf_capacity() && m.file_pages + route_depth(m, root, key, MAX_PAGES as nat)
        + 2 <= MAX_PAGES))
}

/// An owed split of the route's leaf does not overflow.
proof fn lemma_owed_split(m: PagerModel, root: int, key: i64, row: Seq<u8>, l: int)
    requires
        insert_owed(m, root, key, row),
        route_leaf(m, root, key, MAX_PAGES as nat) == Some(l),
        !leaf_has_room(m.page(l), row.len() as int),
    ensures
        !split_overflows(leaf_cells(m.page(l)), key, row),
        m.file_pages + route_depth(m, root, key, MAX_PAGES as nat) + 2 <= MAX_PAGES,
{
    let oc = leaf_cells(m.page(l));
    if split_overflows(oc, key, row) {
        let (pos, k) = choose|pos: int, k: int|
            #![trigger is_insert_pos(oc, key, pos), is_split_count(oc.insert(pos, (key, row)), k)]
            {
                let all = oc.insert(pos, (key, row));
                &&& is_insert_pos(oc, key, pos)
                &&& is_split_count(all, k)
                &&& !halves_fit(all, split_point(all, k))
            };
        lemma_split_fits(oc, key, row, pos, k);
    }
}

/// Insert a key + serialized row into the tree rooted at root_page.
/// Returns the (possibly new) root page number (root changes on root split).
/// A row longer than `max_row_data_size` is refused. On a sound tree, a
/// successful insert leaves a sound tree whose scan reads the rows it read
/// before with the new row added.
#[verifier::rlimit(100)]
#[verifier::spinoff_prover]
pub fn insert(pager: &mut Pager, root_page: u32, key: i64, row_data: &[u8]) -> (r: Result<u32, String>)
    requires
        old(pager).wf(),
    ensures
        final(pager).wf(),
        only_pages_changed(old(pager)@, final(pager)@),
        row_data@.len() > max_row_len() ==> r is Err && *final(pager) == *old(pager),
        row_data@.len() > max_row_len() ==> (r matches Err(e) && e@ == row_too_large_text(
            row_data@.len(),
        )),
        r is Ok ==> row_data@.len() <= max_row_len(),
        insert_owed(old(pager)@, root_page as int, key, row_data@) ==> r is Ok,
        row_data@.len() <= max_row_len() ==> match route_leaf(
            old(pager)@,
            root_page as int,
            key,
            MAX_PAGES as nat,
        ) {
            None => r is Err,
            Some(l) => {
                let p = old(pager)@.page(l);
                if leaf_has_room(p, row_data@.len() as int) {
                    &&& r == Ok::<u32, String>(root_page)
                    &&& unchanged_except(old(pager)@, final(pager)@, set![l])
                    &&& final(pager)@.file_pages == old(pager)@.file_pages
                    &&& free_space(final(pager)@.page(l)) == free_space(p) - cell_cost(row_data@.len() as int)
                    &&& exists|pos: int|
                        is_insert_pos(leaf_cells(p), key, pos) && leaf_cells(final(pager)@.page(l)) == leaf_cells(
                            p,
                        ).insert(pos, (key, row_data@))
                } else {
                    &&& (old(pager)@.file_pages >= MAX_PAGES || split_overflows(leaf_cells(p), key, row_data@))
                        ==> r is Err
                    &&& r is Err ==> split_overflows(leaf_cells(p), key, row_data@) || final(pager)@.file_pages
                        >= MAX_PAGES
                    &&& match r {
                        Ok(root) => {
                            let d = route_depth(old(pager)@, root_page as int, key, MAX_PAGES as nat);
                            &&& old(pager)@.file_pages < final(pager)@.file_pages
                            &&& (root == root_page && final(pager)@.file_pages <= old(pager)@.file_pages + d) || (root
                                == old(pager)@.file_pages + d + 1 && root + 1 == final(pager)@.file_pages)
                        },
                        Err(_) => true,
                    }
                }
            },
        },
        match r {
            Ok(root) => root == root_page || (old(pager)@.file_pages <= root && root + 1 == final(pager)@.file_pages),
            Err(_) => true,
        },
        tree_ok(old(pager)@, root_page as int) ==> match r {
            Ok(root) => tree_ok(final(pager)@, root as int) && row_added(
                scan_rows(old(pager)@, root_page as int),
                scan_rows(final(pager)@, root as int),
                row_data@,
            ) && leftmost_leaf(final(pager)@, root as int, final(pager)@.file_pages) == leftmost_leaf(
                old(pager)@,
                root_page as int,
                old(pager)@.file_pages,
            ) && (leftmost_leaf(old(pager)@, root_page as int, old(pager)@.file_pages) != Some(0int)
                ==> final(pager)@.page(0) == old(pager)@.page(0)) && cell_added(
                scan_cells(old(pager)@, root_page as int),
                scan_cells(final(pager)@, root as int),
                (key, row_data@),
            ),
            Err(_) => true,
        },
        sorted_tree(old(pager)@, root_page as int) && key_absent(old(pager)@, root_page as int, key) ==> match r {
            Ok(root) => sorted_tree(final(pager)@, root as int),
            Err(_) => true,
        },
        one_leaf_in_order(old(pager)@, root_page as int) && row_data@.len() <= max_row_len() && leaf_has_room(
            old(pager)@.page(root_page as int),
            row_data@.len() as int,
        ) ==> r == Ok::<u32, String>(root_page) && one_leaf_in_order(final(pager)@, root_page as int),
{
    if row_data.len() > max_row_data_size() {
        return Err(row_too_large(row_data.len()));
    }
    let cell_size = KEY_SIZE + row_data.len();
    let space_needed = SLOT_SIZE + cell_size;
    let ghost m0 = pager@;
    let ghost root = root_page as int;
    let ghost row = row_data@;
    let ghost off0 = leftmost_leaf(m0, root, m0.file_pages) != Some(0int);
    let ghost ok = tree_ok(m0, root);
    let ghost sorted = insert_sorted(m0, root, key);
    let ghost nodes = walk_nodes(m0, root, key);
    let ghost ps = walk_chain(m0, root, key);
    let ghost b0 = walk_bounds(m0, root);
    let ghost par0 = walk_parents(m0, root);
    proof {
        lemma_walk_witness(m0, root, key);
        if ok {
            lemma_scan_shape(m0, root, nodes, ps);
            crate::order::lemma_scan_cells_shape(m0, root, nodes, ps);
        }
    }
    // Find the leaf that should contain this key, tracking the path.
    let (path, cur, leaf) = match find_leaf(pager, root_page, key) {
        Ok(r) => r,
        Err(e) => {
            return Err(e);
        },
    };
    let ghost j = choose|j: int| 0 <= j < ps.len() && ps[j] == cur as int;
    proof {
        assert forall|i: int| 0 <= i < path@.len() implies #[trigger] path@[i].0 < m0.file_pages && path@[i].0
            != cur by {
            lemma_leaf_in_file(m0, path@[i].0 as int);
        }
        lemma_leaf_in_file(m0, cur as int);
        if sorted {
            crate::order::lemma_keyed_leaf(m0, root, nodes, ps, b0, par0, j);
            crate::order::lemma_key_absent_chain(m0, root, nodes, ps, key);
            crate::order::lemma_key_absent_leaf(m0, ps, b0, j, key);
        }
    }
    let free = leaf_free_space(leaf.as_slice());
    if free >= space_needed {
        match insert_into_leaf(pager, cur, key, row_data) {
            Ok(_) => {},
            Err(e) => {
                return Err(e);
            },
        }
        proof {
            if ok {
                let o = m0.page(cur as int);
                let f = pager@.page(cur as int);
                let pos = choose|pos: int|
                    is_insert_pos(leaf_cells(o), key, pos) && leaf_cells(f) == leaf_cells(o).insert(pos, (key, row));
                lemma_cell_rows_insert(leaf_cells(o), pos, (key, row));
                lemma_leaf_insert_shape(m0, pager@, root, nodes, ps, cur as int, pos, row);
                lemma_scan_shape(pager@, root, nodes, ps);
                let i = choose|i: int|
                    0 <= i <= rows_of(m0, ps).len() && rows_of(pager@, ps) == rows_of(m0, ps).insert(i, row);
                lemma_row_added(rows_of(m0, ps), rows_of(pager@, ps), i, row);
                if off0 {
                    assert(cur != 0);
                }
                crate::order::lemma_cells_leaf_insert(m0, pager@, ps, j, pos, (key, row));
                crate::order::lemma_scan_cells_shape(pager@, root, nodes, ps);
                let ic = choose|ic: int|
                    0 <= ic <= cells_of(m0, ps).len() && cells_of(pager@, ps) == #[trigger] cells_of(m0, ps).insert(
                        ic,
                        (key, row),
                    );
                crate::order::lemma_cell_added(cells_of(m0, ps), cells_of(pager@, ps), ic, (key, row));
                if sorted {
                    crate::order::lemma_leaf_insert_keyed(m0, pager@, root, nodes, ps, b0, par0, j, pos, (key, row));
                    assert(shape(pager@, root, nodes, ps) && keyed(pager@, root, nodes, ps, b0, par0));
                }
            }
        }
        proof {
            if one_leaf_in_order(m0, root) {
                assert(route_leaf(m0, root, key, MAX_PAGES as nat) == Some(root));
                let o = m0.page(root);
                let f = pager@.page(root);
                let pos = choose|pos: int|
                    is_insert_pos(leaf_cells(o), key, pos) && leaf_cells(f) == leaf_cells(o).insert(pos, (key, row));
                lemma_insert_keeps_key_order(leaf_cells(o), key, row, pos);
            }
        }
        return Ok(root_page);
    }
    proof {
        assert(!leaf_has_room(m0.page(cur as int), row_data@.len() as int));
    }
    insert_split(pager, root_page, key, row_data, path, cur)
}

/// Adds a new root at the end of the file, an internal node with the one
/// key `key` between the children `left` and `right`.
fn write_new_root(pager: &mut Pager, left: u32, key: i64, right: u32) -> (r: Result<u32, String>)
    requires
        old(pager).wf(),
    ensures
        final(pager).wf(),
        only_pages_changed(old(pager)@, final(pager)@),
        match r {
            Ok(n) => {
                &&& n == old(pager)@.file_pages
                &&& n < MAX_PAGES
                &&& final(pager)@.file_pages == n + 1
                &&& forall|p: int| p != n ==> #[trigger] final(pager)@.page(p) == old(pager)@.page(p)
                &&& internal_wf(final(pager)@.page(n as int))
                &&& internal_keys(final(pager)@.page(n as int)) == seq![key]
                &&& internal_children(final(pager)@.page(n as int)) == seq![left, right]
            },
            Err(_) => old(pager)@.file_pages >= MAX_PAGES && *final(pager) == *old(pager),
        },
{
    let new_root = match pager.allocate_page() {
        Ok(n) => n,
        Err(e) => {
            return Err(e);
        },
    };
    let mut page = match pager.read_page(new_root) {
        Ok(p) => p,
        Err(e) => {
            return Err(e);
        },
    };
    let mut children: Vec<u32> = Vec::new();
    children.push(left);
    children.push(right);
    let mut keys: Vec<i64> = Vec::new();
    keys.push(key);
    assert(children@ =~= seq![left, right]);
    assert(keys@ =~= seq![key]);
    write_internal(&mut page, &children, &keys);
    match pager.write_page(new_root, page.as_slice()) {
        Ok(_) => {},
        Err(e) => {
            return Err(e);
        },
    }
    Ok(new_root)
}

/// The file length, `now` pages, while a split is carried up a descent of
/// `depth` internal nodes with `k` of them left: the leaf's new page and one
/// page for each internal node split so far.
#[verifier::opaque]
pub open spec fn split_growth(now: nat, start: nat, depth: int, k: int) -> bool {
    now == start + 1 + (depth - k)
}

/// The insert into a full leaf: the leaf splits, and the split moves up
/// the descent `path` from the root to `cur`, maybe up to a new root.
#[verifier::rlimit(100)]
#[verifier::spinoff_prover]
fn insert_split(
    pager: &mut Pager,
    root_page: u32,
    key: i64,
    row_data: &[u8],
    path: Vec<(u32, usize)>,
    cur: u32,
) -> (r: Result<u32, String>)
    requires
        old(pager).wf(),
        row_data@.len() <= max_row_len(),
        leaf_wf(old(pager)@.page(cur as int)),
        !leaf_has_room(old(pager)@.page(cur as int), row_data@.len() as int),
        tree_ok(old(pager)@, root_page as int) ==> walk_nodes(old(pager)@, root_page as int, key).contains(cur as int)
            && walk_chain(old(pager)@, root_page as int, key).contains(cur as int) && forall|i: int|
            0 <= i < path@.len() ==> walk_nodes(old(pager)@, root_page as int, key).contains(
                #[trigger] path@[i].0 as int,
            ),
        insert_sorted(old(pager)@, root_page as int, key) ==> descent_ok(
            old(pager)@,
            root_page as int,
            walk_parents(old(pager)@, root_page as int),
            path@,
            cur as int,
        ) && walk_bounds(old(pager)@, root_page as int).dom().contains(cur as int) && walk_bounds(
            old(pager)@,
            root_page as int,
        )[cur as int].0 < key <= walk_bounds(old(pager)@, root_page as int)[cur as int].1,
        route_leaf(old(pager)@, root_page as int, key, MAX_PAGES as nat) == Some(cur as int),
        cur < MAX_PAGES,
        path@.len() == route_depth(old(pager)@, root_page as int, key, MAX_PAGES as nat),
        forall|i: int|
            0 <= i < path@.len() ==> #[trigger] path@[i].0 < MAX_PAGES && internal_wf(
                old(pager)@.page(path@[i].0 as int),
            ),
    ensures
        final(pager).wf(),
        only_pages_changed(old(pager)@, final(pager)@),
        insert_owed(old(pager)@, root_page as int, key, row_data@) ==> r is Ok,
        (old(pager)@.file_pages >= MAX_PAGES || split_overflows(
            leaf_cells(old(pager)@.page(cur as int)),
            key,
            row_data@,
        )) ==> r is Err,
        r is Err ==> split_overflows(leaf_cells(old(pager)@.page(cur as int)), key, row_data@)
            || final(pager)@.file_pages >= MAX_PAGES,
        match r {
            Ok(root) => old(pager)@.file_pages < final(pager)@.file_pages && ((root == root_page
                && final(pager)@.file_pages <= old(pager)@.file_pages + path@.len()) || (root
                == old(pager)@.file_pages + path@.len() + 1 && root + 1 == final(pager)@.file_pages)),
            Err(_) => true,
        },
        tree_ok(old(pager)@, root_page as int) ==> match r {
            Ok(root) => tree_ok(final(pager)@, root as int) && row_added(
                scan_rows(old(pager)@, root_page as int),
                scan_rows(final(pager)@, root as int),
                row_data@,
            ) && leftmost_leaf(final(pager)@, root as int, final(pager)@.file_pages) == leftmost_leaf(
                old(pager)@,
                root_page as int,
                old(pager)@.file_pages,
            ) && (leftmost_leaf(old(pager)@, root_page as int, old(pager)@.file_pages) != Some(0int)
                ==> final(pager)@.page(0) == old(pager)@.page(0)) && cell_added(
                scan_cells(old(pager)@, root_page as int),
                scan_cells(final(pager)@, root as int),
                (key, row_data@),
            ),
            Err(_) => true,
        },
        sorted_tree(old(pager)@, root_page as int) && key_absent(old(pager)@, root_page as int, key) ==> match r {
            Ok(root) => sorted_tree(final(pager)@, root as int),
            Err(_) => true,
        },
{
    let ghost m0 = pager@;
    let ghost root = root_page as int;
    let ghost row = row_data@;
    let ghost off0 = leftmost_leaf(m0, root, m0.file_pages) != Some(0int);
    let ghost ok = tree_ok(m0, root);
    let ghost sorted = insert_sorted(m0, root, key);
    let ghost nodes = walk_nodes(m0, root, key);
    let ghost ps = walk_chain(m0, root, key);
    let ghost b0 = walk_bounds(m0, root);
    let ghost par0 = walk_parents(m0, root);
    proof {
        lemma_walk_witness(m0, root, key);
        if ok {
            lemma_scan_shape(m0, root, nodes, ps);
            crate::order::lemma_scan_cells_shape(m0, root, nodes, ps);
        }
    }
    let ghost j = choose|j: int| 0 <= j < ps.len() && ps[j] == cur as int;
    proof {
        assert forall|i: int| 0 <= i < path@.len() implies #[trigger] path@[i].0 < m0.file_pages && path@[i].0
            != cur by {
            lemma_leaf_in_file(m0, path@[i].0 as int);
        }
        lemma_leaf_in_file(m0, cur as int);
        if sorted {
            crate::order::lemma_keyed_leaf(m0, root, nodes, ps, b0, par0, j);
            crate::order::lemma_key_absent_chain(m0, root, nodes, ps, key);
            crate::order::lemma_key_absent_leaf(m0, ps, b0, j, key);
        }
    }
    // Leaf is full — split.
    let ghost owed = insert_owed(m0, root, key, row);
    proof {
        if owed {
            lemma_owed_split(m0, root, key, row, cur as int);
        }
    }
    let (median_key, new_leaf) = match split_leaf(pager, cur, key, row_data) {
        Ok(r) => r,
        Err(e) => {
            return Err(e);
        },
    };
    proof {
        assert forall|i: int| 0 <= i < path@.len() implies internal_wf(pager@.page(#[trigger] path@[i].0 as int)) by {
            assert(pager@.page(path@[i].0 as int) == m0.page(path@[i].0 as int));
        }
    }
    let ghost f0 = m0.file_pages;
    let ghost ps2 = ps.insert(j + 1, new_leaf as int);
    assert(ok ==> ps2[0] == ps[0]);
    let ghost mut nodes_k = nodes.insert(new_leaf as int);
    proof {
        if ok {
            let o = m0.page(cur as int);
            let oc = leaf_cells(o);
            let (pos, k) = choose|pos: int, k: int|
                #![trigger is_insert_pos(oc, key, pos), is_split_count(oc.insert(pos, (key, row)), k)]
                {
                    let all = oc.insert(pos, (key, row));
                    &&& is_insert_pos(oc, key, pos)
                    &&& is_split_count(all, k)
                    &&& leaf_cells(pager@.page(cur as int)) == all.take(split_point(all, k))
                    &&& leaf_cells(pager@.page(new_leaf as int)) == all.skip(split_point(all, k))
                };
            let all = oc.insert(pos, (key, row));
            lemma_cell_rows_insert(oc, pos, (key, row));
            lemma_cell_rows_split(all, split_point(all, k));
            lemma_split_leaf_shape(m0, pager@, root, nodes, ps, j, new_leaf as int, pos, row);
            crate::shape::lemma_nodes_in_file(m0, root, nodes, ps);
            if off0 {
                assert(cur != 0 && new_leaf != 0);
            }
            crate::shape::lemma_chain_leaves(m0, ps[0], m0.file_pages);
            assert(!ps.contains(new_leaf as int)) by {
                if ps.contains(new_leaf as int) {
                    let t = choose|t: int| 0 <= t < ps.len() && ps[t] == new_leaf as int;
                    assert(0 <= ps[t] < m0.file_pages);
                }
            }
            assert(all.take(split_point(all, k)) + all.skip(split_point(all, k)) =~= all);
            crate::order::lemma_cells_leaf_split(m0, pager@, ps, j, new_leaf as int, pos, (key, row));
            if sorted {
                lemma_split_leaf_order(
                    m0,
                    pager@,
                    root,
                    nodes,
                    ps,
                    b0,
                    par0,
                    path@,
                    cur,
                    j,
                    new_leaf,
                    key,
                    row,
                    pos,
                    k,
                    median_key,
                );
            }
        }
    }
    assert(split_growth(pager@.file_pages, m0.file_pages, path@.len() as int, path@.len() as int)) by {
        reveal(split_growth);
    }
    let ghost mut b_k = crate::order::split_bounds(b0, cur as int, new_leaf as int, median_key as int);
    let ghost mut par_k = par0;
    let ghost i0 = choose|i: int|
        0 <= i <= rows_of(m0, ps).len() && rows_of(pager@, ps2) == rows_of(m0, ps).insert(i, row);
    let ghost r2 = rows_of(m0, ps).insert(i0, row);
    let ghost ic0 = choose|i: int|
        0 <= i <= cells_of(m0, ps).len() && cells_of(pager@, ps2) == #[trigger] cells_of(m0, ps).insert(i, (key, row));
    let ghost c2 = cells_of(m0, ps).insert(ic0, (key, row));
    // Propagate the median key upward.
    let mut promote_key = median_key;
    let mut promote_child = new_leaf;
    let mut k = path.len();
    while k > 0
        invariant
            k <= path@.len(),
            forall|i: int| 0 <= i < k ==> internal_wf(pager@.page(#[trigger] path@[i].0 as int)),
            forall|i: int| 0 <= i < path@.len() ==> #[trigger] path@[i].0 < m0.file_pages,
            route_leaf(m0, root, key, MAX_PAGES as nat) == Some(cur as int),
            !leaf_has_room(m0.page(cur as int), row_data@.len() as int),
            split_growth(pager@.file_pages, m0.file_pages, path@.len() as int, k as int),
            m0.file_pages < MAX_PAGES && !split_overflows(leaf_cells(m0.page(cur as int)), key, row_data@),
            owed == insert_owed(m0, root, key, row),
            owed ==> pager@.file_pages + k + 1 <= MAX_PAGES,
            pager.wf(),
            only_pages_changed(m0, pager@),
            m0 == old(pager)@,
            row_data@.len() <= max_row_len(),
            m0.file_pages <= pager@.file_pages,
            ok == tree_ok(m0, root),
            root == root_page as int,
            row == row_data@,
            r2 == rows_of(m0, ps).insert(i0, row),
            ok ==> scan_rows(m0, root) == Some(rows_of(m0, ps)),
            ok ==> 0 <= i0 <= rows_of(m0, ps).len(),
            ok ==> split_state(pager@, root, nodes_k, ps2, f0),
            ok ==> ps2[0] == ps[0] && leftmost_leaf(m0, root, m0.file_pages) == Some(ps[0]),
            ok ==> nodes.subset_of(nodes_k),
            ok ==> nodes_k.contains(promote_child as int),
            ok ==> rows_of(pager@, ps2) == r2,
            ok ==> forall|i: int| 0 <= i < path@.len() ==> nodes.contains(#[trigger] path@[i].0 as int),
            off0 == (leftmost_leaf(m0, root, m0.file_pages) != Some(0int)),
            ok && off0 ==> pager@.page(0) == m0.page(0),
            ok ==> 0 < m0.file_pages,
            c2 == cells_of(m0, ps).insert(ic0, (key, row)),
            ok ==> 0 <= ic0 <= cells_of(m0, ps).len(),
            ok ==> cells_of(pager@, ps2) == c2,
            ok ==> scan_cells(m0, root) == Some(cells_of(m0, ps)),
            sorted == (sorted_tree(m0, root) && key_absent(m0, root, key)),
            sorted ==> ok,
            sorted ==> pending(
                pager@,
                root,
                nodes_k,
                ps2,
                b_k,
                par_k,
                x_of(path@, cur as int, k as int),
                promote_child as int,
                promote_key,
                pp_of(path@, k as int),
                pi_of(path@, k as int),
            ),
            sorted ==> descent_ok(pager@, root, par_k, path@.take(k as int), x_of(path@, cur as int, k as int)),
        decreases k,
    {
        k = k - 1;
        let (parent_page, _child_idx) = path[k];
        let page = match pager.read_page(parent_page) {
            Ok(p) => p,
            Err(e) => {
                return Err(e);
            },
        };
        if page[0] != NODE_TYPE_INTERNAL || internal_num_keys(page.as_slice()) as usize > internal_max_keys() {
            return Err(err("Corrupt internal node."));
        }
        proof {
            if ok {
                assert(nodes.contains(path@[k as int].0 as int));
            }
        }
        let ghost m1 = pager@;
        let nk = internal_num_keys(page.as_slice()) as usize;
        if nk < internal_max_keys() {
            match insert_into_internal(pager, parent_page, promote_key, promote_child) {
                Ok(_) => {},
                Err(e) => {
                    return Err(e);
                },
            }
            proof {
                if ok {
                    let o = m1.page(parent_page as int);
                    let f = pager@.page(parent_page as int);
                    let pos = choose|pos: int|
                        is_key_pos(internal_keys(o), promote_key, pos) && internal_keys(f) == internal_keys(o).insert(
                            pos,
                            promote_key,
                        ) && internal_children(f) == internal_children(o).insert(pos + 1, promote_child);
                    lemma_parent_insert(m1, pager@, root, nodes_k, ps2, f0, parent_page as int, promote_child, pos);
                    crate::order::lemma_cells_frame(m1, pager@, ps2);
                    lemma_finish_shape(pager@, root, nodes_k, ps2, f0);
                    crate::order::lemma_scan_cells_shape(pager@, root, nodes_k, ps2);
                    crate::order::lemma_cell_added(cells_of(m0, ps), c2, ic0, (key, row));
                    lemma_scan_shape(pager@, root, nodes_k, ps2);
                    lemma_row_added(rows_of(m0, ps), r2, i0, row);
                    if off0 {
                        assert(parent_page != 0);
                    }
                    if sorted {
                        lemma_parent_insert_order(
                            m1,
                            pager@,
                            root,
                            nodes_k,
                            ps2,
                            b_k,
                            par_k,
                            path@,
                            cur as int,
                            k as int,
                            promote_child,
                            promote_key,
                            f0,
                        );
                        assert(shape(pager@, root, nodes_k, ps2) && keyed(
                            pager@,
                            root,
                            nodes_k,
                            ps2,
                            b_k,
                            par_k.insert(promote_child as int, parent_page as int),
                        ));
                    }
                }
            }
            assert(pager@.file_pages <= m0.file_pages + path@.len() && m0.file_pages < pager@.file_pages) by {
                reveal(split_growth);
            }
            return Ok(root_page);
        }
        let (new_median, new_internal) = match split_internal(pager, parent_page, promote_key, promote_child) {
            Ok(r) => r,
            Err(e) => {
                return Err(e);
            },
        };
        proof {
            assert forall|i: int| 0 <= i < k implies internal_wf(pager@.page(#[trigger] path@[i].0 as int)) by {
                if path@[i].0 != parent_page {
                    assert(pager@.page(path@[i].0 as int) == m1.page(path@[i].0 as int));
                }
            }
        }
        proof {
            if ok {
                let o = m1.page(parent_page as int);
                let mid = (max_keys() + 1) / 2;
                let pos = choose|pos: int|
                    #![trigger is_key_pos(internal_keys(o), promote_key, pos)]
                    {
                        let (cs, ks) = internal_after_insert(o, promote_key, promote_child, pos);
                        &&& is_key_pos(internal_keys(o), promote_key, pos)
                        &&& internal_children(pager@.page(parent_page as int)) == cs.take(mid + 1)
                        &&& internal_children(pager@.page(new_internal as int)) == cs.skip(mid + 1)
                    };
                lemma_parent_split(
                    m1,
                    pager@,
                    root,
                    nodes_k,
                    ps2,
                    f0,
                    parent_page as int,
                    new_internal as int,
                    promote_child,
                    pos,
                    mid,
                );
                crate::order::lemma_cells_frame(m1, pager@, ps2);
                if off0 {
                    assert(parent_page != 0 && new_internal != 0);
                }
                if sorted {
                    par_k = lemma_parent_split_order(
                        m1,
                        pager@,
                        root,
                        nodes_k,
                        ps2,
                        b_k,
                        par_k,
                        path@,
                        cur as int,
                        k as int,
                        promote_child,
                        promote_key,
                        f0,
                        new_internal,
                        new_median,
                        nodes,
                    );
                }
            }
            b_k = crate::order::split_bounds(b_k, parent_page as int, new_internal as int, new_median as int);
            nodes_k = nodes_k.insert(new_internal as int);
        }
        assert(split_growth(pager@.file_pages, m0.file_pages, path@.len() as int, k as int)) by {
            reveal(split_growth);
        }
        promote_key = new_median;
        promote_child = new_internal;
    }
    // Root was split — create a new root.
    let ghost m1 = pager@;
    let new_root = match write_new_root(pager, root_page, promote_key, promote_child) {
        Ok(n) => n,
        Err(e) => {
            return Err(e);
        },
    };
    proof {
        if ok {
            lemma_new_root_shape(m1, pager@, root, nodes_k, ps2, f0, new_root as int, promote_child as int);
            crate::order::lemma_cells_frame(m1, pager@, ps2);
            crate::order::lemma_scan_cells_shape(pager@, new_root as int, nodes_k.insert(new_root as int), ps2);
            crate::order::lemma_cell_added(cells_of(m0, ps), c2, ic0, (key, row));
            lemma_scan_shape(pager@, new_root as int, nodes_k.insert(new_root as int), ps2);
            lemma_row_added(rows_of(m0, ps), r2, i0, row);
            if off0 {
                assert(new_root != 0);
            }
            if sorted {
                lemma_new_root_order(
                    m1,
                    pager@,
                    root,
                    nodes_k,
                    ps2,
                    b_k,
                    par_k,
                    path@,
                    cur as int,
                    promote_child,
                    promote_key,
                    f0,
                    new_root,
                );
                assert(shape(pager@, new_root as int, nodes_k.insert(new_root as int), ps2) && keyed(
                    pager@,
                    new_root as int,
                    nodes_k.insert(new_root as int),
                    ps2,
                    b_k.insert(new_root as int, (crate::order::key_floor(), crate::order::key_ceil())),
                    par_k.insert(root, new_root as int).insert(promote_child as int, new_root as int),
                ));
            }
        }
    }
    assert(new_root == m0.file_pages + path@.len() + 1 && new_root + 1 == pager@.file_pages) by {
        reveal(split_growth);
    }
    Ok(new_root)
}

/// The rows of leaf cells.
pub open spec fn cell_rows(c: Seq<(i64, Seq<u8>)>) -> Seq<Seq<u8>> {
    c.map_values(|x: (i64, Seq<u8>)| x.1)
}

/// The rows of a leaf, in slot order.
pub open spec fn leaf_rows(p: Seq<u8>) -> Seq<Seq<u8>> {
    cell_rows(leaf_cells(p))
}

/// Inserting a cell inserts its row.
pub proof fn lemma_cell_rows_insert(c: Seq<(i64, Seq<u8>)>, pos: int, x: (i64, Seq<u8>))
    requires
        0 <= pos <= c.len(),
    ensures
        cell_rows(c.insert(pos, x)) == cell_rows(c).insert(pos, x.1),
{
    assert(cell_rows(c.insert(pos, x)) =~= cell_rows(c).insert(pos, x.1));
}

/// The rows of the two parts of a split cell list are the rows of the list.
pub proof fn lemma_cell_rows_split(c: Seq<(i64, Seq<u8>)>, k: int)
    requires
        0 <= k <= c.len(),
    ensures
        cell_rows(c.take(k)) + cell_rows(c.skip(k)) == cell_rows(c),
{
    assert(cell_rows(c.take(k)) + cell_rows(c.skip(k)) =~= cell_rows(c));
}

/// The contents of a list of row buffers.
pub open spec fn rows_model(v: Seq<Vec<u8>>) -> Seq<Seq<u8>> {
    v.map_values(|r: Vec<u8>| r@)
}

/// The leaf reached from `cur` by always following the first child, within
/// `fuel` steps (`None` when a page is out of range or not a node).
pub open spec fn leftmost_leaf(m: PagerModel, cur: int, fuel: nat) -> Option<int>
    decreases fuel,
{
    if fuel == 0 || !(0 <= cur < MAX_PAGES) {
        None
    } else {
        let p = m.page(cur);
        if p[0] == NODE_TYPE_LEAF {
            Some(cur)
        } else if !internal_wf(p) {
            None
        } else {
            let next = if internal_count(p) > 0 {
                entry_child(p, 0)
            } else {
                right_child(p)
            };
            leftmost_leaf(m, next as int, (fuel - 1) as nat)
        }
    }
}

/// The rows of the leaf chain starting at `cur`, following next pointers
/// until 0, within `fuel` leaves (`None` when a page is not a leaf).
pub open spec fn chain_rows(m: PagerModel, cur: int, fuel: nat) -> Option<Seq<Seq<u8>>>
    decreases fuel,
{
    if fuel == 0 || !(0 <= cur < MAX_PAGES) || !leaf_wf(m.page(cur)) {
        None
    } else {
        let p = m.page(cur);
        if leaf_next(p) == 0 {
            Some(leaf_rows(p))
        } else {
            match chain_rows(m, leaf_next(p) as int, (fuel - 1) as nat) {
                Some(rest) => Some(leaf_rows(p) + rest),
                None => None,
            }
        }
    }
}

/// What a full scan of the tree rooted at `root` reads: the rows of the leaf
/// chain that starts at the leftmost leaf.
pub open spec fn scan_rows(m: PagerModel, root: int) -> Option<Seq<Seq<u8>>> {
    match leftmost_leaf(m, root, MAX_PAGES as nat) {
        Some(leaf) => chain_rows(m, leaf, MAX_PAGES as nat),
        None => None,
    }
}

/// `acc` followed by the rows of `rest`, if any.
pub open spec fn prepend_rows(acc: Seq<Seq<u8>>, rest: Option<Seq<Seq<u8>>>) -> Option<Seq<Seq<u8>>> {
    match rest {
        Some(r) => Some(acc + r),
        None => None,
    }
}

/// Scan all rows in key order by walking the leaf chain.
/// Returns Vec of raw row byte vectors (variable length).
pub fn scan_all(pager: &Pager, root_page: u32) -> (r: Result<Vec<Vec<u8>>, String>)
    requires
        pager.wf(),
    ensures
        match r {
            Ok(rows) => scan_rows(pager@, root_page as int) == Some(rows_model(rows@)),
            Err(_) => scan_rows(pager@, root_page as int) is None,
        },
{
    let ghost m = pager@;
    // Walk to the leftmost leaf.
    let mut cur = root_page;
    let mut fuel: usize = MAX_PAGES;
    loop
        invariant
            fuel <= MAX_PAGES,
            pager.wf(),
            m == pager@,
            leftmost_leaf(m, root_page as int, MAX_PAGES as nat) == leftmost_leaf(m, cur as int, fuel as nat),
        ensures
            leftmost_leaf(m, root_page as int, MAX_PAGES as nat) == Some(cur as int),
        decreases fuel,
    {
        if fuel == 0 {
            return Err(err("Corrupt tree: no leaf below the root."));
        }
        let page = match pager.read_page(cur) {
            Ok(p) => p,
            Err(e) => {
                return Err(e);
            },
        };
        if page[0] == NODE_TYPE_LEAF {
            break;
        }
        if page[0] != NODE_TYPE_INTERNAL || internal_num_keys(page.as_slice()) as usize > internal_max_keys() {
            return Err(err("Corrupt internal node."));
        }
        let nk = internal_num_keys(page.as_slice()) as usize;
        assert(internal_wf(page@));
        cur = if nk > 0 {
            internal_child(page.as_slice(), 0)
        } else {
            internal_right_child(page.as_slice())
        };
        fuel = fuel - 1;
    }
    // Walk the leaf chain via next_leaf pointers.
    let mut rows: Vec<Vec<u8>> = Vec::new();
    let mut fuel: usize = MAX_PAGES;
    loop
        invariant_except_break
            scan_rows(m, root_page as int) == prepend_rows(rows_model(rows@), chain_rows(m, cur as int, fuel as nat)),
        invariant
            fuel <= MAX_PAGES,
            pager.wf(),
            m == pager@,
        ensures
            scan_rows(m, root_page as int) == Some(rows_model(rows@)),
        decreases fuel,
    {
        if fuel == 0 {
            return Err(err("Corrupt tree: leaf chain does not end."));
        }
        let page = match pager.read_page(cur) {
            Ok(p) => p,
            Err(e) => {
                return Err(e);
            },
        };
        if !leaf_valid(page.as_slice()) {
            return Err(err("Corrupt leaf page."));
        }
        let ghost before = rows_model(rows@);
        let n = leaf_num_cells(page.as_slice()) as usize;
        let mut i: usize = 0;
        while i < n
            invariant
                i <= n,
                n == leaf_count(page@),
                leaf_wf(page@),
                rows_model(rows@) == before + leaf_rows(page@).take(i as int),
            decreases n - i,
        {
            let row = vstd::slice::slice_to_vec(leaf_cell_row(page.as_slice(), i));
            let ghost old_rows = rows@;
            rows.push(row);
            proof {
                assert(rows@ == old_rows.push(row));
                assert(rows_model(rows@) =~= rows_model(old_rows).push(row@));
                assert(leaf_rows(page@)[i as int] == row@);
            }
            i = i + 1;
            assert(rows_model(rows@) =~= before + leaf_rows(page@).take(i as int));
        }
        proof {
            assert(leaf_rows(page@).take(n as int) =~= leaf_rows(page@));
        }
        let next = leaf_next_leaf(page.as_slice());
        proof {
            let lr = leaf_rows(page@);
            assert(page@ == m.page(cur as int));
            if next != 0 {
                match chain_rows(m, next as int, (fuel - 1) as nat) {
                    Some(r) => {
                        assert((before + lr) + r =~= before + (lr + r));
                    },
                    None => {},
                }
            }
        }
        if next == 0 {
            break;
        }
        cur = next;
        fuel = fuel - 1;
    }
    Ok(rows)
}

// ---------------------------------------------------------------------------
// Tree dump
// ---------------------------------------------------------------------------

/// Two spaces per level of depth.
pub open spec fn indent(depth: nat) -> Seq<char> {
    Seq::new(2 * depth, |i: int| ' ')
}

/// Free space as the dump shows it (0 when the directory meets the data).
pub open spec fn shown_free(p: Seq<u8>) -> int {
    if leaf_data_start(p) > slots_end(leaf_count(p) as int) {
        free_space(p)
    } else {
        0
    }
}

/// The key lines of the first `i` cells of a leaf.
pub open spec fn leaf_key_lines(p: Seq<u8>, depth: nat, i: nat) -> Seq<char>
    decreases i,
{
    if i == 0 {
        Seq::empty()
    } else {
        leaf_key_lines(p, depth, (i - 1) as nat) + "\n"@ + indent(depth) + "  - key "@ + int_text(
            cell_key(p, i - 1) as int,
        )
    }
}

/// The dump of a leaf page.
pub open spec fn leaf_dump(p: Seq<u8>, page_num: u32, depth: nat) -> Seq<char> {
    indent(depth) + "Leaf (page="@ + decimal(page_num as nat) + ", cells="@ + decimal(
        leaf_count(p) as nat,
    ) + ", next="@ + decimal(leaf_next(p) as nat) + ", free="@ + decimal(shown_free(p) as nat) + ")"@
        + leaf_key_lines(p, depth, leaf_count(p) as nat)
}

/// The error for a node that is neither a leaf nor an internal node.
pub open spec fn unknown_node_text(t: u8, page_num: u32) -> Seq<char> {
    "Unknown node type "@ + decimal(t as nat) + " at page "@ + decimal(page_num as nat)
}

/// The error for a dump that goes deeper than the file has pages.
pub open spec fn deep_tree_text() -> Seq<char> {
    "Tree is deeper than the file."@
}

/// The dump of the tree below `page_num`, indented for `depth`, following at
/// most `fuel` levels of children (`None` where a page is neither a readable
/// leaf nor a readable internal node, or the levels run out).
pub open spec fn tree_dump(m: PagerModel, page_num: u32, depth: nat, fuel: nat) -> Option<Seq<char>>
    decreases fuel, 1nat, 0nat,
{
    if fuel == 0 || page_num >= MAX_PAGES {
        None
    } else {
        let p = m.page(page_num as int);
        if p[0] == NODE_TYPE_LEAF {
            if leaf_wf(p) {
                Some(leaf_dump(p, page_num, depth))
            } else {
                None
            }
        } else if internal_wf(p) {
            let head = indent(depth) + "Internal (page="@ + decimal(page_num as nat) + ", keys="@ + decimal(
                internal_count(p) as nat,
            ) + ")"@;
            match internal_dump(m, p, depth, fuel, internal_count(p) as nat) {
                Some(body) => match tree_dump(m, right_child(p), depth + 1, (fuel - 1) as nat) {
                    Some(last) => Some(head + body + "\n"@ + last),
                    None => None,
                },
                None => None,
            }
        } else {
            None
        }
    }
}

/// The dumps of the first `i` children of an internal node, each followed by its key line.
pub open spec fn internal_dump(m: PagerModel, p: Seq<u8>, depth: nat, fuel: nat, i: nat) -> Option<Seq<char>>
    decreases fuel, 0nat, i,
{
    if fuel == 0 {
        None
    } else if i == 0 {
        Some(Seq::empty())
    } else {
        match internal_dump(m, p, depth, fuel, (i - 1) as nat) {
            Some(prev) => match tree_dump(m, entry_child(p, i - 1), depth + 1, (fuel - 1) as nat) {
                Some(sub) => Some(prev + "\n"@ + sub + "\n"@ + indent(depth) + "  key "@ + int_text(
                    entry_key(p, i - 1) as int,
                )),
                None => None,
            },
            None => None,
        }
    }
}

proof fn lemma_internal_dump_none(m: PagerModel, p: Seq<u8>, depth: nat, fuel: nat, i: nat, j: nat)
    requires
        i <= j,
        internal_dump(m, p, depth, fuel, i) is None,
    ensures
        internal_dump(m, p, depth, fuel, j) is None,
    decreases j,
{
    if i < j {
        lemma_internal_dump_none(m, p, depth, fuel, i, (j - 1) as nat);
    }
}

fn indent_string(depth: usize) -> (s: String)
    ensures
        s@ == indent(depth as nat),
{
    let mut s = String::new();
    let mut i: usize = 0;
    while i < depth
        invariant
            i <= depth,
            s@ == indent(i as nat),
        decreases depth - i,
    {
        s.append("  ");
        proof {
            reveal_strlit("  ");
        }
        i = i + 1;
        assert(s@ =~= indent(i as nat));
    }
    s
}

/// Appends `b` to `a`.
fn push_str(a: &mut String, b: &str)
    ensures
        final(a)@ == old(a)@ + b@,
{
    a.append(b);
}

/// Dump the tree structure as a human-readable string for debugging.
pub fn dump_tree(pager: &Pager, page_num: u32, depth: usize) -> (r: Result<String, String>)
    requires
        pager.wf(),
        depth <= usize::MAX / 4,
    ensures
        match r {
            Ok(s) => tree_dump(pager@, page_num, depth as nat, MAX_PAGES as nat) == Some(s@),
            Err(_) => tree_dump(pager@, page_num, depth as nat, MAX_PAGES as nat) is None,
        },
        r matches Err(e) ==> {
            let t = pager@.page(page_num as int)[0];
            &&& page_num >= MAX_PAGES ==> e@ == crate::pager::page_limit_text(page_num as nat)
            &&& page_num < MAX_PAGES && t != NODE_TYPE_LEAF && t != NODE_TYPE_INTERNAL ==> e@ == unknown_node_text(
                t,
                page_num,
            )
        },
{
    dump_node(pager, page_num, depth, MAX_PAGES)
}

/// The dump of the tree below `page_num`, following at most `fuel` levels.
fn dump_node(pager: &Pager, page_num: u32, depth: usize, fuel: usize) -> (r: Result<String, String>)
    requires
        pager.wf(),
        fuel <= MAX_PAGES,
        depth + fuel <= usize::MAX / 4 + MAX_PAGES,
    ensures
        match r {
            Ok(s) => tree_dump(pager@, page_num, depth as nat, fuel as nat) == Some(s@),
            Err(_) => tree_dump(pager@, page_num, depth as nat, fuel as nat) is None,
        },
        r matches Err(e) ==> {
            let t = pager@.page(page_num as int)[0];
            &&& fuel == 0 ==> e@ == deep_tree_text()
            &&& fuel > 0 && page_num >= MAX_PAGES ==> e@ == crate::pager::page_limit_text(page_num as nat)
            &&& fuel > 0 && page_num < MAX_PAGES && t != NODE_TYPE_LEAF && t != NODE_TYPE_INTERNAL ==> e@
                == unknown_node_text(t, page_num)
        },
    decreases fuel,

{
    if fuel == 0 {
        return Err(String::from_str("Tree is deeper than the file."));
    }
    let indent = indent_string(depth);
    let page = match pager.read_page(page_num) {
        Ok(p) => p,
        Err(e) => {
            return Err(e);
        },
    };
    let node_type = page[0];
    if node_type == NODE_TYPE_LEAF {
        if !leaf_valid(page.as_slice()) {
            return Err(err("Corrupt leaf page."));
        }
        let n = leaf_num_cells(page.as_slice());
        let next = leaf_next_leaf(page.as_slice());
        let free = leaf_free_space(page.as_slice());
        let mut out = String::from_str(indent.as_str());
        push_str(&mut out, "Leaf (page=");
        push_str(&mut out, decimal_string(page_num as u64).as_str());
        push_str(&mut out, ", cells=");
        push_str(&mut out, decimal_string(n as u64).as_str());
        push_str(&mut out, ", next=");
        push_str(&mut out, decimal_string(next as u64).as_str());
        push_str(&mut out, ", free=");
        push_str(&mut out, decimal_string(free as u64).as_str());
        push_str(&mut out, ")");
        let ghost head = out@;
        let mut i: usize = 0;
        while i < n as usize
            invariant
                i <= n,
                n == leaf_count(page@),
                leaf_wf(page@),
                indent@ == crate::btree::indent(depth as nat),
                out@ == head + leaf_key_lines(page@, depth as nat, i as nat),
            decreases n - i,
        {
            let k = leaf_cell_key(page.as_slice(), i);
            push_str(&mut out, "\n");
            push_str(&mut out, indent.as_str());
            push_str(&mut out, "  - key ");
            push_str(&mut out, int_string(k).as_str());
            i = i + 1;
        }
        proof {
            assert(page@ == pager@.page(page_num as int));
        }
        Ok(out)
    } else if node_type == NODE_TYPE_INTERNAL && internal_num_keys(page.as_slice()) as usize <= internal_max_keys() {
        let nk = internal_num_keys(page.as_slice()) as usize;
        let rc = internal_right_child(page.as_slice());
        let mut out = String::from_str(indent.as_str());
        push_str(&mut out, "Internal (page=");
        push_str(&mut out, decimal_string(page_num as u64).as_str());
        push_str(&mut out, ", keys=");
        push_str(&mut out, decimal_string(nk as u64).as_str());
        push_str(&mut out, ")");
        let ghost head = out@;
        proof {
            assert(page@ == pager@.page(page_num as int));
        }
        let mut i: usize = 0;
        while i < nk
            invariant
                i <= nk,
                nk == internal_count(page@),
                internal_wf(page@),
                pager.wf(),
                page@ == pager@.page(page_num as int),
                page_num < MAX_PAGES,
                0 < fuel <= MAX_PAGES,
                depth + fuel <= usize::MAX / 4 + MAX_PAGES,
                indent@ == crate::btree::indent(depth as nat),
                internal_dump(pager@, page@, depth as nat, fuel as nat, i as nat) == Some(out@.subrange(head.len() as int, out@.len() as int)),
                out@.len() >= head.len(),
                out@.subrange(0, head.len() as int) == head,
            decreases nk - i,
        {
            let child = internal_child(page.as_slice(), i);
            let key = internal_key(page.as_slice(), i);
            let sub = match dump_node(pager, child, depth + 1, fuel - 1) {
                Ok(t) => t,
                Err(e) => {
                    proof {
                        assert(internal_dump(pager@, page@, depth as nat, fuel as nat, (i + 1) as nat) is None);
                        lemma_internal_dump_none(pager@, page@, depth as nat, fuel as nat, (i + 1) as nat, nk as nat);
                    }
                    return Err(e);
                },
            };
            let ghost before = out@;
            push_str(&mut out, "\n");
            push_str(&mut out, sub.as_str());
            push_str(&mut out, "\n");
            push_str(&mut out, indent.as_str());
            push_str(&mut out, "  key ");
            push_str(&mut out, int_string(key).as_str());
            proof {
                let hl = head.len() as int;
                assert(out@.subrange(hl, out@.len() as int) =~= before.subrange(hl, before.len() as int) + "\n"@ + sub@ + "\n"@ + crate::btree::indent(depth as nat) + "  key "@ + int_text(key as int));
                assert(out@.subrange(0, hl) =~= before.subrange(0, hl));
            }
            i = i + 1;
        }
        let last = match dump_node(pager, rc, depth + 1, fuel - 1) {
            Ok(t) => t,
            Err(e) => {
                return Err(e);
            },
        };
        let ghost body = out@.subrange(head.len() as int, out@.len() as int);
        let ghost pre = out@;
        proof {
            assert(pre =~= pre.subrange(0, head.len() as int) + body);
        }
        push_str(&mut out, "\n");
        push_str(&mut out, last.as_str());
        Ok(out)
    } else if node_type == NODE_TYPE_INTERNAL {
        proof {
            assert(page@ == pager@.page(page_num as int));
        }
        Err(err("Corrupt internal node."))
    } else {
        proof {
            assert(page@ == pager@.page(page_num as int));
        }
        let a = concat("Unknown node type ", decimal_string(node_type as u64).as_str());
        let b = concat(a.as_str(), " at page ");
        Err(concat(b.as_str(), decimal_string(page_num as u64).as_str()))
    }
}

} // verus!
