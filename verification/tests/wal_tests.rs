use mukhidb::wal::{encode_commit_record, encode_page_record, recover, PAGE_SIZE, RECORD_SIZE};

/// A log in memory: records are appended under the current transaction id,
/// which a commit advances (as the log file does).
struct Log {
    bytes: Vec<u8>,
    txn_id: u64,
}

impl Log {
    fn new() -> Log {
        Log { bytes: Vec::new(), txn_id: 0 }
    }
    fn append_page(&mut self, page_num: u32, data: &[u8]) {
        self.bytes.extend(encode_page_record(self.txn_id, page_num, data));
    }
    fn append_commit(&mut self) {
        self.bytes.extend(encode_commit_record(self.txn_id));
        self.txn_id += 1;
    }
    fn truncate(&mut self) {
        self.bytes.clear();
    }
}

#[test]
fn append_and_recover_committed() {
    let mut wal = Log::new();
    let mut page = [0u8; PAGE_SIZE];
    page[0] = 0xAB;
    wal.append_page(5, &page);
    wal.append_commit();

    let records = recover(&wal.bytes);
    assert_eq!(records.len(), 1);
    assert_eq!(records[0].page_num, 5);
    assert_eq!(records[0].data[0], 0xAB);
}

#[test]
fn uncommitted_records_discarded() {
    let mut wal = Log::new();
    let page = [0u8; PAGE_SIZE];
    wal.append_page(1, &page);
    let records = recover(&wal.bytes);
    assert!(records.is_empty());
}

#[test]
fn truncate_clears_wal() {
    let mut wal = Log::new();
    let page = [0u8; PAGE_SIZE];
    wal.append_page(0, &page);
    wal.append_commit();
    wal.truncate();
    let records = recover(&wal.bytes);
    assert!(records.is_empty());
}

#[test]
fn multiple_txns_only_committed_recovered() {
    let mut wal = Log::new();
    // Txn 0: committed
    let mut p1 = [0u8; PAGE_SIZE];
    p1[0] = 0x01;
    wal.append_page(0, &p1);
    wal.append_commit(); // txn_id becomes 1

    // Txn 1: NOT committed
    let mut p2 = [0u8; PAGE_SIZE];
    p2[0] = 0x02;
    wal.append_page(1, &p2);

    let records = recover(&wal.bytes);
    assert_eq!(records.len(), 1);
    assert_eq!(records[0].data[0], 0x01);
}

#[test]
fn record_layout() {
    let mut page = [0u8; PAGE_SIZE];
    page[1] = 7;
    let rec = encode_page_record(3, 9, &page);
    assert_eq!(rec.len(), RECORD_SIZE);
    assert_eq!(rec[0], 0x01);
    assert_eq!(&rec[1..9], &3u64.to_le_bytes());
    assert_eq!(&rec[9..13], &9u32.to_le_bytes());
    assert_eq!(rec[14], 7);
    let c = encode_commit_record(3);
    assert_eq!(c.len(), RECORD_SIZE);
    assert_eq!(c[0], 0x02);
    assert_eq!(&c[1..9], &3u64.to_le_bytes());
    assert!(c[9..].iter().all(|&b| b == 0));
}

#[test]
fn records_keep_log_order_and_partial_tail_is_ignored() {
    let mut wal = Log::new();
    let mut a = [0u8; PAGE_SIZE];
    a[0] = 1;
    let mut b = [0u8; PAGE_SIZE];
    b[0] = 2;
    wal.append_page(4, &a);
    wal.append_page(2, &b);
    wal.append_commit();
    wal.bytes.extend_from_slice(&[0x01, 0, 0]); // torn write
    let records = recover(&wal.bytes);
    assert_eq!(records.len(), 2);
    assert_eq!((records[0].page_num, records[0].data[0]), (4, 1));
    assert_eq!((records[1].page_num, records[1].data[0]), (2, 2));
}

#[test]
fn commit_marker_later_in_log_still_counts() {
    let mut log = Vec::new();
    let page = [5u8; PAGE_SIZE];
    log.extend(encode_page_record(8, 1, &page));
    log.extend(encode_page_record(9, 2, &page));
    log.extend(encode_commit_record(8));
    let records = recover(&log);
    assert_eq!(records.len(), 1);
    assert_eq!(records[0].page_num, 1);
}
