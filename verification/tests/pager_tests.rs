use mukhidb::pager::Pager;
use mukhidb::wal::{encode_commit_record, encode_page_record, PAGE_SIZE};

/// Makes the pager's queued commits durable in a file image, the way the
/// program writes them to the `.db` file.
fn persist(p: &mut Pager, file: &mut Vec<u8>) {
    for batch in p.take_pending() {
        for rec in batch.pages {
            let off = rec.page_num as usize * PAGE_SIZE;
            if file.len() < off + PAGE_SIZE {
                file.resize(off + PAGE_SIZE, 0);
            }
            file[off..off + PAGE_SIZE].copy_from_slice(&rec.data);
        }
    }
}

#[test]
fn round_trip_page() {
    let mut file = Vec::new();
    {
        let mut p = Pager::open("t.db", &file, &[]).unwrap();
        assert_eq!(p.num_pages(), 0);
        let mut page = p.get_page(0).unwrap();
        page[0] = 0xAB;
        page[4095] = 0xCD;
        p.write_page(0, &page).unwrap();
        p.flush().unwrap();
        persist(&mut p, &mut file);
    }
    {
        let mut p = Pager::open("t.db", &file, &[]).unwrap();
        assert_eq!(p.num_pages(), 1);
        let page = p.get_page(0).unwrap();
        assert_eq!(page[0], 0xAB);
        assert_eq!(page[4095], 0xCD);
    }
}

#[test]
fn rollback_discards_changes() {
    let mut p = Pager::new();
    let mut page = p.get_page(0).unwrap();
    page[0] = 0xFF;
    p.write_page(0, &page).unwrap();
    p.flush().unwrap();

    p.begin().unwrap();
    let mut page = p.get_page(0).unwrap();
    page[0] = 0x00;
    p.write_page(0, &page).unwrap();
    p.rollback().unwrap();

    let page = p.get_page(0).unwrap();
    assert_eq!(page[0], 0xFF);
}

#[test]
fn read_page_works_via_shared_ref() {
    let mut p = Pager::new();
    let mut page = p.get_page(0).unwrap();
    page[0] = 0x11;
    page[1] = 0x22;
    p.write_page(0, &page).unwrap();
    p.flush().unwrap();

    let pref: &Pager = &p;
    let copy = pref.read_page(0).unwrap();
    assert_eq!(copy[0], 0x11);
    assert_eq!(copy[1], 0x22);
}

#[test]
fn commit_queues_only_dirty_pages_in_order() {
    let mut p = Pager::new();
    let a = p.allocate_page().unwrap();
    let b = p.allocate_page().unwrap();
    assert_eq!((a, b), (0, 1));
    p.flush().unwrap();
    let first = p.take_pending();
    assert_eq!(first.len(), 1);
    assert_eq!(first[0].txn_id, 0);
    assert_eq!(first[0].pages.iter().map(|r| r.page_num).collect::<Vec<_>>(), vec![0, 1]);
    let mut page = p.get_page(1).unwrap();
    page[9] = 3;
    p.write_page(1, &page).unwrap();
    p.commit().unwrap();
    let second = p.take_pending();
    assert_eq!(second[0].txn_id, 1);
    assert_eq!(second[0].pages.len(), 1);
    assert_eq!(second[0].pages[0].page_num, 1);
    assert_eq!(second[0].pages[0].data[9], 3);
    assert!(p.take_pending().is_empty());
}

#[test]
fn begin_twice_is_an_error() {
    let mut p = Pager::new();
    assert!(p.begin().is_ok());
    assert!(p.in_transaction());
    assert_eq!(p.begin(), Err("Already in a transaction.".to_string()));
    p.commit().unwrap();
    assert!(!p.in_transaction());
}

#[test]
fn page_limit() {
    let mut p = Pager::new();
    assert!(p.read_page(1023).is_ok());
    assert_eq!(p.read_page(1024), Err("Page 1024 exceeds max 1024".to_string()));
    assert!(p.write_page(1024, &[0u8; PAGE_SIZE]).is_err());
}

#[test]
fn open_replays_committed_log() {
    let file = vec![0u8; PAGE_SIZE];
    let mut page = [0u8; PAGE_SIZE];
    page[0] = 0x42;
    let mut log = encode_page_record(0, 2, &page);
    log.extend(encode_commit_record(0));
    let mut p = Pager::open("t.db", &file, &log).unwrap();
    assert_eq!(p.num_pages(), 3);
    assert_eq!(p.read_page(2).unwrap()[0], 0x42);
    assert_eq!(p.read_page(1).unwrap(), vec![0u8; PAGE_SIZE]);
    let pending = p.take_pending();
    assert_eq!(pending.len(), 1);
    assert_eq!(pending[0].pages[0].page_num, 2);
}

#[test]
fn open_rejects_partial_pages() {
    assert_eq!(
        Pager::open("t.db", &[0u8; 100], &[]).err(),
        Some("Corrupt file 't.db': length 100 not a multiple of 4096".to_string())
    );
}

#[test]
fn open_accepts_files_past_the_page_limit() {
    let file = vec![0u8; PAGE_SIZE * 1025];
    let p = Pager::open("t.db", &file, &[]).unwrap();
    assert_eq!(p.num_pages(), 1025);
    assert!(p.read_page(1023).is_ok());
    assert_eq!(p.read_page(1024), Err("Page 1024 exceeds max 1024".to_string()));
}

#[test]
fn open_replays_records_past_the_page_limit() {
    let file = vec![0u8; PAGE_SIZE];
    let page = [7u8; PAGE_SIZE];
    let mut log = encode_page_record(3, 1500, &page);
    log.extend(encode_commit_record(3));
    let p = Pager::open("t.db", &file, &log).unwrap();
    assert_eq!(p.num_pages(), 1501);
    assert_eq!(p.read_page(1500), Err("Page 1500 exceeds max 1024".to_string()));
}
