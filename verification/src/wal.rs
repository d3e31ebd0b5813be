//! Write-ahead log records and crash recovery.
//!
//! Record layout (fixed 4109 bytes):
//!   [0]        record_type  (0x01 = page_write, 0x02 = commit)
//!   [1..9]     txn_id       (u64 LE)
//!   [9..13]    page_num     (u32 LE)
//!   [13..4109] page_data    (4096 bytes)
//!
//! For commit records, page_num and page_data are zeroed.
use vstd::prelude::*;
use vstd::bytes::*;
use crate::bytes::{copy_range, lemma_le_roundtrip, push_all, push_u32, read_u32, u32_at};

verus! {

/// Size of a page in bytes.
pub const PAGE_SIZE: usize = 4096;

/// Record type of a page write.
pub const RECORD_TYPE_PAGE: u8 = 0x01;

/// Record type of a commit marker.
pub const RECORD_TYPE_COMMIT: u8 = 0x02;

/// Size of one log record.
pub const RECORD_SIZE: usize = 4109;

/// A single recovered page write from the WAL.
pub struct WalRecord {
    pub page_num: u32,
    pub data: Vec<u8>,
}

impl View for WalRecord {
    type V = (u32, Seq<u8>);

    open spec fn view(&self) -> (u32, Seq<u8>) {
        (self.page_num, self.data@)
    }
}

/// The models of a list of records.
pub open spec fn records_model(rs: Seq<WalRecord>) -> Seq<(u32, Seq<u8>)> {
    rs.map_values(|r: WalRecord| r@)
}

/// The `u64` stored little-endian at `off`.
pub open spec fn u64_at(s: Seq<u8>, off: int) -> u64 {
    spec_u64_from_le_bytes(s.subrange(off, off + 8))
}

/// Number of whole records in a log (a trailing partial record is ignored).
pub open spec fn record_count(log: Seq<u8>) -> nat {
    log.len() / (RECORD_SIZE as nat)
}

/// The bytes of record `i`.
pub open spec fn record(log: Seq<u8>, i: int) -> Seq<u8> {
    log.subrange(i * RECORD_SIZE, (i + 1) * RECORD_SIZE)
}

/// Type tag of record `i`.
pub open spec fn record_type(log: Seq<u8>, i: int) -> u8 {
    record(log, i)[0]
}

/// Transaction id of record `i`.
pub open spec fn record_txn(log: Seq<u8>, i: int) -> u64 {
    u64_at(record(log, i), 1)
}

/// The page write that record `i` holds.
pub open spec fn record_page(log: Seq<u8>, i: int) -> (u32, Seq<u8>) {
    (u32_at(record(log, i), 9), record(log, i).subrange(13, RECORD_SIZE as int))
}

/// Whether the log holds a commit marker for `txn`.
pub open spec fn is_committed(log: Seq<u8>, txn: u64) -> bool {
    exists|i: int|
        0 <= i < record_count(log) && #[trigger] record_type(log, i) == RECORD_TYPE_COMMIT
            && record_txn(log, i) == txn
}

/// The page writes, among the first `n` records, of committed transactions, in log order.
pub open spec fn recovered_prefix(log: Seq<u8>, n: nat) -> Seq<(u32, Seq<u8>)>
    decreases n,
{
    if n == 0 {
        Seq::empty()
    } else {
        let i = (n - 1) as int;
        let prev = recovered_prefix(log, (n - 1) as nat);
        if record_type(log, i) == RECORD_TYPE_PAGE && is_committed(log, record_txn(log, i)) {
            prev.push(record_page(log, i))
        } else {
            prev
        }
    }
}

/// The page writes that recovery replays: those of committed transactions, in log order.
pub open spec fn recovered(log: Seq<u8>) -> Seq<(u32, Seq<u8>)> {
    recovered_prefix(log, record_count(log))
}

/// The bytes of a page-write record.
pub open spec fn page_record(txn: u64, page_num: u32, data: Seq<u8>) -> Seq<u8> {
    seq![RECORD_TYPE_PAGE] + spec_u64_to_le_bytes(txn) + spec_u32_to_le_bytes(page_num) + data
}

/// The bytes of a commit record.
pub open spec fn commit_record(txn: u64) -> Seq<u8> {
    seq![RECORD_TYPE_COMMIT] + spec_u64_to_le_bytes(txn) + Seq::new(4 + PAGE_SIZE as nat, |i: int| 0u8)
}

/// Encodes a page-write record.
pub fn encode_page_record(txn: u64, page_num: u32, data: &[u8]) -> (rec: Vec<u8>)
    requires
        data@.len() == PAGE_SIZE,
    ensures
        rec@ == page_record(txn, page_num, data@),
        rec@.len() == RECORD_SIZE,
{
    proof {
        lemma_le_roundtrip();
        lemma_auto_spec_u64_to_from_le_bytes();
    }
    let mut rec: Vec<u8> = Vec::with_capacity(RECORD_SIZE);
    rec.push(RECORD_TYPE_PAGE);
    let t = u64_to_le_bytes(txn);
    push_all(&mut rec, t.as_slice());
    push_u32(&mut rec, page_num);
    push_all(&mut rec, data);
    assert(rec@ =~= page_record(txn, page_num, data@));
    rec
}

/// Encodes a commit record.
pub fn encode_commit_record(txn: u64) -> (rec: Vec<u8>)
    ensures
        rec@ == commit_record(txn),
        rec@.len() == RECORD_SIZE,
{
    proof {
        lemma_auto_spec_u64_to_from_le_bytes();
    }
    let mut rec: Vec<u8> = Vec::with_capacity(RECORD_SIZE);
    rec.push(RECORD_TYPE_COMMIT);
    let t = u64_to_le_bytes(txn);
    push_all(&mut rec, t.as_slice());
    let ghost head = rec@;
    let mut i: usize = 0;
    while i < 4 + PAGE_SIZE
        invariant
            i <= 4 + PAGE_SIZE,
            rec@ == head + Seq::new(i as nat, |j: int| 0u8),
        decreases 4 + PAGE_SIZE - i,
    {
        rec.push(0u8);
        i = i + 1;
        assert(rec@ =~= head + Seq::new(i as nat, |j: int| 0u8));
    }
    assert(rec@ =~= commit_record(txn));
    rec
}

fn read_u64(buf: &[u8], off: usize) -> (v: u64)
    requires
        off + 8 <= buf@.len(),
    ensures
        v == u64_at(buf@, off as int),
{
    let _n = buf.len();
    u64_from_le_bytes(vstd::slice::slice_subrange(buf, off, off + 8))
}

fn contains_txn(txns: &Vec<u64>, t: u64) -> (b: bool)
    ensures
        b == txns@.contains(t),
{
    let mut i: usize = 0;
    while i < txns.len()
        invariant
            i <= txns@.len(),
            forall|j: int| 0 <= j < i ==> txns@[j] != t,
        decreases txns@.len() - i,
    {
        if txns[i] == t {
            return true;
        }
        i = i + 1;
    }
    false
}

proof fn lemma_record_bytes(log: Seq<u8>, i: int)
    requires
        0 <= i < record_count(log),
    ensures
        (i + 1) * RECORD_SIZE <= log.len(),
        i * RECORD_SIZE >= 0,
{
    assert((i + 1) * RECORD_SIZE <= log.len()) by (nonlinear_arith)
        requires
            0 <= i < log.len() / (RECORD_SIZE as nat),
    ;
    assert(i * RECORD_SIZE >= 0) by (nonlinear_arith)
        requires
            0 <= i,
    ;
}

/// Recover committed page writes from the WAL bytes.
/// Returns only records belonging to transactions that have a commit marker.
pub fn recover(log: &[u8]) -> (records: Vec<WalRecord>)
    ensures
        records_model(records@) == recovered(log@),
{
    let len = log.len();
    let count = len / RECORD_SIZE;
    // First pass: the committed transaction ids.
    let mut committed: Vec<u64> = Vec::new();
    let mut i: usize = 0;
    while i < count
        invariant
            i <= count,
            count == record_count(log@),
            len == log@.len(),
            forall|t: u64|
                committed@.contains(t) <==> exists|j: int|
                    0 <= j < i && #[trigger] record_type(log@, j) == RECORD_TYPE_COMMIT
                        && record_txn(log@, j) == t,
        decreases count - i,
    {
        proof {
            lemma_record_bytes(log@, i as int);
        }
        let base = i * RECORD_SIZE;
        let rtype = log[base];
        assert(rtype == record_type(log@, i as int));
        if rtype == RECORD_TYPE_COMMIT {
            let txn = read_u64(log, base + 1);
            assert(log@.subrange(base + 1, base + 9) =~= record(log@, i as int).subrange(1, 9));
            let ghost old_c = committed@;
            committed.push(txn);
            proof {
                assert forall|t: u64|
                    committed@.contains(t) <==> exists|j: int|
                        0 <= j < i + 1 && #[trigger] record_type(log@, j) == RECORD_TYPE_COMMIT
                            && record_txn(log@, j) == t by {
                    if committed@.contains(t) && !old_c.contains(t) {
                        let k = choose|k: int| 0 <= k < committed@.len() && committed@[k] == t;
                        assert(k == old_c.len());
                        assert(record_type(log@, i as int) == RECORD_TYPE_COMMIT);
                    }
                    if exists|j: int|
                        0 <= j < i + 1 && #[trigger] record_type(log@, j) == RECORD_TYPE_COMMIT
                            && record_txn(log@, j) == t {
                        let j = choose|j: int|
                            0 <= j < i + 1 && #[trigger] record_type(log@, j) == RECORD_TYPE_COMMIT
                                && record_txn(log@, j) == t;
                        if j == i {
                            assert(committed@[old_c.len() as int] == t);
                        } else {
                            assert(old_c.contains(t));
                            let k = choose|k: int| 0 <= k < old_c.len() && old_c[k] == t;
                            assert(committed@[k] == t);
                        }
                    }
                }
            }
        }
        i = i + 1;
    }
    // Second pass: page writes of committed transactions, in log order.
    let mut out: Vec<WalRecord> = Vec::new();
    let mut i: usize = 0;
    while i < count
        invariant
            i <= count,
            count == record_count(log@),
            len == log@.len(),
            forall|t: u64| committed@.contains(t) <==> is_committed(log@, t),
            records_model(out@) == recovered_prefix(log@, i as nat),
        decreases count - i,
    {
        proof {
            lemma_record_bytes(log@, i as int);
        }
        let base = i * RECORD_SIZE;
        let rtype = log[base];
        assert(rtype == record_type(log@, i as int));
        if rtype == RECORD_TYPE_PAGE {
            let txn = read_u64(log, base + 1);
            assert(log@.subrange(base + 1, base + 9) =~= record(log@, i as int).subrange(1, 9));
            if contains_txn(&committed, txn) {
                let page_num = read_u32(log, base + 9);
                assert(log@.subrange(base + 9, base + 13) =~= record(log@, i as int).subrange(9, 13));
                let data = copy_range(log, base + 13, PAGE_SIZE);
                assert(data@ =~= record(log@, i as int).subrange(13, RECORD_SIZE as int));
                let ghost old_out = out@;
                out.push(WalRecord { page_num, data });
                assert(records_model(out@) =~= records_model(old_out).push(record_page(log@, i as int)));
            }
        }
        i = i + 1;
    }
    out
}

} // verus!

verus! {

/// The page-write records of transaction `t`, one per write, in order.
pub open spec fn page_log(t: u64, ws: Seq<(u32, Seq<u8>)>) -> Seq<u8>
    decreases ws.len(),
{
    if ws.len() == 0 {
        Seq::empty()
    } else {
        page_log(t, ws.drop_last()) + page_record(t, ws.last().0, ws.last().1)
    }
}

/// What one commit writes to the log: its page writes, then its commit marker.
pub open spec fn commit_log(t: u64, ws: Seq<(u32, Seq<u8>)>) -> Seq<u8> {
    page_log(t, ws) + commit_record(t)
}

/// Every write holds a whole page.
pub open spec fn full_pages(ws: Seq<(u32, Seq<u8>)>) -> bool {
    forall|i: int| 0 <= i < ws.len() ==> (#[trigger] ws[i]).1.len() == PAGE_SIZE
}

proof fn lemma_page_record_fields(t: u64, p: u32, d: Seq<u8>)
    requires
        d.len() == PAGE_SIZE,
    ensures
        page_record(t, p, d).len() == RECORD_SIZE,
        page_record(t, p, d)[0] == RECORD_TYPE_PAGE,
        u64_at(page_record(t, p, d), 1) == t,
        u32_at(page_record(t, p, d), 9) == p,
        page_record(t, p, d).subrange(13, RECORD_SIZE as int) == d,
{
    lemma_le_roundtrip();
    lemma_auto_spec_u64_to_from_le_bytes();
    let r = page_record(t, p, d);
    assert(r.subrange(1, 9) =~= spec_u64_to_le_bytes(t));
    assert(r.subrange(9, 13) =~= spec_u32_to_le_bytes(p));
    assert(r.subrange(13, RECORD_SIZE as int) =~= d);
}

proof fn lemma_commit_record_fields(t: u64)
    ensures
        commit_record(t).len() == RECORD_SIZE,
        commit_record(t)[0] == RECORD_TYPE_COMMIT,
        u64_at(commit_record(t), 1) == t,
{
    lemma_auto_spec_u64_to_from_le_bytes();
    let r = commit_record(t);
    assert(r.subrange(1, 9) =~= spec_u64_to_le_bytes(t));
}

proof fn lemma_page_log_len(t: u64, ws: Seq<(u32, Seq<u8>)>)
    requires
        full_pages(ws),
    ensures
        page_log(t, ws).len() == ws.len() * RECORD_SIZE,
    decreases ws.len(),
{
    if ws.len() > 0 {
        let p = ws.drop_last();
        assert forall|i: int| 0 <= i < p.len() implies (#[trigger] p[i]).1.len() == PAGE_SIZE by {
            assert(p[i] == ws[i]);
        }
        lemma_page_log_len(t, p);
        assert(ws[ws.len() - 1].1.len() == PAGE_SIZE);
        lemma_page_record_fields(t, ws.last().0, ws.last().1);
    }
}

/// Record `i` of a log that starts with the page records of `ws` is the
/// record of write `i`.
proof fn lemma_page_log_record(t: u64, ws: Seq<(u32, Seq<u8>)>, tail: Seq<u8>, i: int)
    requires
        full_pages(ws),
        0 <= i < ws.len(),
    ensures
        record(page_log(t, ws) + tail, i) == page_record(t, ws[i].0, ws[i].1),
    decreases ws.len(),
{
    let p = ws.drop_last();
    assert forall|k: int| 0 <= k < p.len() implies (#[trigger] p[k]).1.len() == PAGE_SIZE by {
        assert(p[k] == ws[k]);
    }
    let last = page_record(t, ws.last().0, ws.last().1);
    assert(ws[ws.len() - 1].1.len() == PAGE_SIZE);
    lemma_page_record_fields(t, ws.last().0, ws.last().1);
    lemma_page_log_len(t, p);
    assert(page_log(t, ws) + tail =~= page_log(t, p) + (last + tail));
    if i < p.len() {
        lemma_page_log_record(t, p, last + tail, i);
        assert(p[i] == ws[i]);
    } else {
        let l = page_log(t, ws) + tail;
        assert(i * RECORD_SIZE == p.len() * RECORD_SIZE);
        assert(l.subrange(i * RECORD_SIZE, (i + 1) * RECORD_SIZE) =~= last);
    }
}

/// A commit's log: its page writes are the ones recovered, in order.
pub proof fn lemma_commit_log_recovered(t: u64, ws: Seq<(u32, Seq<u8>)>)
    requires
        full_pages(ws),
    ensures
        recovered(commit_log(t, ws)) == ws,
{
    let n = ws.len();
    let l = commit_log(t, ws);
    lemma_page_log_len(t, ws);
    lemma_commit_record_fields(t);
    assert(l.len() == (n + 1) * RECORD_SIZE);
    assert(record_count(l) == n + 1) by {
        assert(l.len() / (RECORD_SIZE as nat) == n + 1) by (nonlinear_arith)
            requires
                l.len() == (n + 1) * RECORD_SIZE,
        ;
    }
    assert(record(l, n as int) =~= commit_record(t));
    assert(is_committed(l, t)) by {
        assert(record_type(l, n as int) == RECORD_TYPE_COMMIT && record_txn(l, n as int) == t);
    }
    lemma_recovered_pages(t, ws, n);
    assert(ws.take(n as int) =~= ws);
}

proof fn lemma_recovered_pages(t: u64, ws: Seq<(u32, Seq<u8>)>, k: nat)
    requires
        full_pages(ws),
        k <= ws.len(),
        is_committed(commit_log(t, ws), t),
    ensures
        recovered_prefix(commit_log(t, ws), k) == ws.take(k as int),
    decreases k,
{
    if k > 0 {
        lemma_recovered_pages(t, ws, (k - 1) as nat);
        let i = k - 1;
        lemma_page_log_record(t, ws, commit_record(t), i);
        assert(ws[i].1.len() == PAGE_SIZE);
        lemma_page_record_fields(t, ws[i].0, ws[i].1);
        assert(ws.take(k as int) =~= ws.take(i).push(ws[i]));
    }
}

/// Page writes with no commit marker are not recovered.
pub proof fn lemma_uncommitted_discarded(t: u64, ws: Seq<(u32, Seq<u8>)>)
    requires
        full_pages(ws),
    ensures
        recovered(page_log(t, ws)) == Seq::<(u32, Seq<u8>)>::empty(),
{
    let n = ws.len();
    let l = page_log(t, ws);
    lemma_page_log_len(t, ws);
    assert(record_count(l) == n) by {
        assert(l.len() / (RECORD_SIZE as nat) == n) by (nonlinear_arith)
            requires
                l.len() == n * RECORD_SIZE,
        ;
    }
    assert(l =~= page_log(t, ws) + Seq::<u8>::empty());
    assert forall|i: int| 0 <= i < record_count(l) implies #[trigger] record_type(l, i) != RECORD_TYPE_COMMIT by {
        lemma_page_log_record(t, ws, Seq::empty(), i);
        assert(ws[i].1.len() == PAGE_SIZE);
        lemma_page_record_fields(t, ws[i].0, ws[i].1);
    }
    lemma_nothing_recovered(l, n);
}

proof fn lemma_nothing_recovered(l: Seq<u8>, k: nat)
    requires
        k <= record_count(l),
        forall|i: int| 0 <= i < record_count(l) ==> #[trigger] record_type(l, i) != RECORD_TYPE_COMMIT,
    ensures
        recovered_prefix(l, k) == Seq::<(u32, Seq<u8>)>::empty(),
    decreases k,
{
    if k > 0 {
        lemma_nothing_recovered(l, (k - 1) as nat);
        let i = k - 1;
        assert(!is_committed(l, record_txn(l, i)));
    }
}

/// The log bytes of one commit batch: its page records, then its commit marker.
pub fn encode_batch(txn_id: u64, pages: &Vec<WalRecord>) -> (log: Vec<u8>)
    requires
        full_pages(records_model(pages@)),
    ensures
        log@ == commit_log(txn_id, records_model(pages@)),
{
    let ghost ws = records_model(pages@);
    let mut log: Vec<u8> = Vec::new();
    let mut i: usize = 0;
    while i < pages.len()
        invariant
            i <= pages@.len(),
            ws == records_model(pages@),
            full_pages(ws),
            log@ == page_log(txn_id, ws.take(i as int)),
        decreases pages@.len() - i,
    {
        assert(ws[i as int] == pages@[i as int]@);
        assert(ws[i as int].1.len() == PAGE_SIZE);
        let rec = encode_page_record(txn_id, pages[i].page_num, pages[i].data.as_slice());
        crate::bytes::push_all(&mut log, rec.as_slice());
        proof {
            let t = ws.take(i + 1);
            assert(t.drop_last() =~= ws.take(i as int));
            assert(t.last() == ws[i as int]);
        }
        i = i + 1;
    }
    assert(ws.take(pages@.len() as int) =~= ws);
    let c = encode_commit_record(txn_id);
    crate::bytes::push_all(&mut log, c.as_slice());
    log
}

} // verus!
