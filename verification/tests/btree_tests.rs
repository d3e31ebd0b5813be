use mukhidb::btree::{collect_leaf_cells, create_tree, dump_tree, insert, leaf_free_space, leaf_next_leaf, leaf_num_cells, max_row_data_size, scan_all, write_leaf_cells};
use mukhidb::pager::Pager;
use mukhidb::wal::PAGE_SIZE;

/// Helper: insert keys with a minimal row (just the key as 8 bytes).
fn insert_and_collect(pager: &mut Pager, keys: &[i64]) -> (u32, Vec<i64>) {
    let mut root = create_tree(pager).unwrap();
    for &k in keys {
        let row = k.to_le_bytes().to_vec();
        root = insert(pager, root, k, &row).unwrap();
    }
    let rows = scan_all(pager, root).unwrap();
    let out: Vec<i64> = rows
        .iter()
        .map(|r| i64::from_le_bytes(r[..8].try_into().unwrap()))
        .collect();
    (root, out)
}

#[test]
fn insert_and_scan_small() {
    let mut pager = Pager::new();
    let (_, keys) = insert_and_collect(&mut pager, &[3, 1, 4, 1, 5, 9, 2, 6]);
    assert_eq!(keys, vec![1, 1, 2, 3, 4, 5, 6, 9]);
}

#[test]
fn insert_triggers_splits() {
    let mut pager = Pager::new();
    let count = 200;
    let keys: Vec<i64> = (0..count).collect();
    let (_, out) = insert_and_collect(&mut pager, &keys);
    assert_eq!(out.len(), count as usize);
    assert_eq!(out, keys);
}

#[test]
fn reverse_order_insert() {
    let mut pager = Pager::new();
    let keys: Vec<i64> = (0..100).rev().collect();
    let (_, out) = insert_and_collect(&mut pager, &keys);
    let expected: Vec<i64> = (0..100).collect();
    assert_eq!(out, expected);
}

#[test]
fn duplicate_keys() {
    let mut pager = Pager::new();
    let keys: Vec<i64> = vec![5; 50];
    let (_, out) = insert_and_collect(&mut pager, &keys);
    assert_eq!(out.len(), 50);
    assert!(out.iter().all(|&k| k == 5));
}

#[test]
fn single_row() {
    let mut pager = Pager::new();
    let (_, out) = insert_and_collect(&mut pager, &[42]);
    assert_eq!(out, vec![42]);
}

#[test]
fn empty_tree_scan() {
    let mut pager = Pager::new();
    let root = create_tree(&mut pager).unwrap();
    let rows = scan_all(&pager, root).unwrap();
    assert!(rows.is_empty());
}

#[test]
fn negative_keys() {
    let mut pager = Pager::new();
    let keys = vec![-10, 0, -5, 3, -1, 7];
    let (_, out) = insert_and_collect(&mut pager, &keys);
    assert_eq!(out, vec![-10, -5, -1, 0, 3, 7]);
}

#[test]
fn persistence_round_trip() {
    let keys: Vec<i64> = (0..60).collect();
    let mut file: Vec<u8> = Vec::new();
    let root = {
        let mut pager = Pager::new();
        let (root, _) = insert_and_collect(&mut pager, &keys);
        pager.flush().unwrap();
        for batch in pager.take_pending() {
            for rec in batch.pages {
                let off = rec.page_num as usize * PAGE_SIZE;
                if file.len() < off + PAGE_SIZE {
                    file.resize(off + PAGE_SIZE, 0);
                }
                file[off..off + PAGE_SIZE].copy_from_slice(&rec.data);
            }
        }
        root
    };
    {
        let pager = Pager::open("t.db", &file, &[]).unwrap();
        let rows = scan_all(&pager, root).unwrap();
        let out: Vec<i64> = rows
            .iter()
            .map(|r| i64::from_le_bytes(r[..8].try_into().unwrap()))
            .collect();
        assert_eq!(out, keys);
    }
}

#[test]
fn variable_size_rows() {
    let mut pager = Pager::new();
    let mut root = create_tree(&mut pager).unwrap();
    let texts = vec!["Hi", "Hello, world!", "", "A medium length string for testing", "x"];
    for (i, text) in texts.iter().enumerate() {
        let key = i as i64;
        let mut row_data = Vec::new();
        row_data.extend_from_slice(&key.to_le_bytes());
        row_data.extend_from_slice(&(text.len() as u32).to_le_bytes());
        row_data.extend_from_slice(text.as_bytes());
        root = insert(&mut pager, root, key, &row_data).unwrap();
    }
    let rows = scan_all(&pager, root).unwrap();
    assert_eq!(rows.len(), 5);
    for (i, row) in rows.iter().enumerate() {
        let k = i64::from_le_bytes(row[..8].try_into().unwrap());
        assert_eq!(k, i as i64);
        let text_len = u32::from_le_bytes(row[8..12].try_into().unwrap()) as usize;
        let text = std::str::from_utf8(&row[12..12 + text_len]).unwrap();
        assert_eq!(text, texts[i]);
    }
}

#[test]
fn large_dataset_500_rows() {
    let mut pager = Pager::new();
    let keys: Vec<i64> = (0..500).collect();
    let (_, out) = insert_and_collect(&mut pager, &keys);
    assert_eq!(out.len(), 500);
    assert_eq!(out, keys);
}

#[test]
fn max_row_size_value() {
    assert_eq!(max_row_data_size(), (4096 - 11) / 2 - 4 - 8);
}

#[test]
fn large_rows_split_across_leaves() {
    let mut pager = Pager::new();
    let mut root = create_tree(&mut pager).unwrap();
    let big = vec![7u8; max_row_data_size()];
    for k in (0..20).rev() {
        root = insert(&mut pager, root, k, &big).unwrap();
    }
    let rows = scan_all(&pager, root).unwrap();
    assert_eq!(rows.len(), 20);
    assert!(rows.iter().all(|r| r.len() == big.len()));
}

#[test]
fn oversized_cell_is_rejected() {
    let mut pager = Pager::new();
    let root = create_tree(&mut pager).unwrap();
    let too_big = vec![0u8; 4081 - 8 + 1];
    assert!(insert(&mut pager, root, 1, &too_big).is_err());
    assert!(scan_all(&pager, root).unwrap().is_empty());
}

#[test]
fn dump_of_small_tree() {
    let mut pager = Pager::new();
    let mut root = create_tree(&mut pager).unwrap();
    for k in [2i64, 1] {
        root = insert(&mut pager, root, k, &k.to_le_bytes()).unwrap();
    }
    let text = dump_tree(&pager, root, 0).unwrap();
    assert!(text.starts_with("Leaf"));
    assert!(text.contains("key 1"));
    assert!(text.contains("key 2"));
}

#[test]
fn distinct_keys_scan_in_increasing_order() {
    let mut pager = Pager::new();
    let mut root = create_tree(&mut pager).unwrap();
    // Large rows and shuffled distinct keys: leaf and internal splits.
    let n: i64 = 3000;
    let mut keys: Vec<i64> = (0..n).map(|i| (i * 7919 + 13) % n - n / 2).collect();
    keys.dedup();
    for &k in &keys {
        let mut row = k.to_le_bytes().to_vec();
        row.resize(300 + (k.rem_euclid(7) as usize) * 50, 0xAB);
        root = insert(&mut pager, root, k, &row).unwrap();
    }
    let rows = scan_all(&pager, root).unwrap();
    let out: Vec<i64> = rows.iter().map(|r| i64::from_le_bytes(r[..8].try_into().unwrap())).collect();
    assert_eq!(out.len(), keys.len());
    assert!(out.windows(2).all(|w| w[0] < w[1]));
    let mut sorted = keys.clone();
    sorted.sort();
    assert_eq!(out, sorted);
}

#[test]
fn oversized_cell_is_refused_with_its_size() {
    let mut pager = Pager::new();
    let root = create_tree(&mut pager).unwrap();
    let row = vec![0u8; 4074];
    assert_eq!(
        insert(&mut pager, root, 1, &row),
        Err("Row too large (4074 bytes). Maximum is 2030 bytes.".to_string())
    );
}

#[test]
fn insert_into_leaf_with_room_keeps_the_root() {
    let mut pager = Pager::new();
    let root = create_tree(&mut pager).unwrap();
    assert_eq!(insert(&mut pager, root, 5, &[1, 2, 3]), Ok(root));
}

#[test]
fn page_past_the_limit_is_refused() {
    let pager = Pager::new();
    assert_eq!(pager.read_page(1024), Err("Page 1024 exceeds max 1024".to_string()));
}

#[test]
fn leaf_split_falls_back_to_a_split_that_fits() {
    let mut pager = Pager::new();
    let root = create_tree(&mut pager).unwrap();
    assert_eq!(root, 0);
    assert_eq!(insert(&mut pager, 0, 1, &[0u8; 8]), Ok(0));
    assert_eq!(insert(&mut pager, 0, 3, &[0u8; 2030]), Ok(0));
    assert_eq!(insert(&mut pager, 0, 4, &[0u8; 7]), Ok(0));
    assert_eq!(insert(&mut pager, 0, 2, &[0u8; 2030]), Ok(2));
    let lens: Vec<usize> = scan_all(&pager, 2).unwrap().iter().map(|r| r.len()).collect();
    assert_eq!(lens, vec![8, 2030, 2030, 7]);
    let dump = dump_tree(&pager, 2, 0).unwrap();
    assert!(dump.contains("Leaf (page=0, cells=2, next=1"));
    assert!(dump.contains("Leaf (page=1, cells=2, next=0"));
}

#[test]
fn full_leaf_splits_and_gets_a_new_root() {
    let mut pager = Pager::new();
    let root = create_tree(&mut pager).unwrap();
    assert_eq!(insert(&mut pager, root, 1, &[0u8; 2000]), Ok(0));
    assert_eq!(insert(&mut pager, root, 2, &[0u8; 2000]), Ok(0));
    assert_eq!(insert(&mut pager, root, 3, &[0u8; 53]), Ok(2));
    let lens: Vec<usize> = scan_all(&pager, 2).unwrap().iter().map(|r| r.len()).collect();
    assert_eq!(lens, vec![2000, 2000, 53]);
}

#[test]
fn cell_that_exactly_fills_the_leaf_needs_no_split() {
    let mut pager = Pager::new();
    let root = create_tree(&mut pager).unwrap();
    assert_eq!(insert(&mut pager, root, 1, &[0u8; 2000]), Ok(0));
    assert_eq!(insert(&mut pager, root, 2, &[0u8; 2000]), Ok(0));
    assert_eq!(insert(&mut pager, root, 3, &[0u8; 49]), Ok(0));
    assert_eq!(scan_all(&pager, 0).unwrap().len(), 3);
}

#[test]
fn rows_over_the_limit_are_refused() {
    let mut pager = Pager::new();
    let root = create_tree(&mut pager).unwrap();
    assert_eq!(
        insert(&mut pager, root, 1, &[0u8; 2031]),
        Err("Row too large (2031 bytes). Maximum is 2030 bytes.".to_string())
    );
    assert_eq!(insert(&mut pager, root, 1, &[0u8; 2030]), Ok(root));
}

#[test]
fn dump_of_an_unknown_node_names_its_type_and_page() {
    let pager = Pager::new();
    assert_eq!(dump_tree(&pager, 5, 0), Err("Unknown node type 0 at page 5".to_string()));
}

/// Keys equal to a separator can reach a leaf out of chain order: after
/// splits that leave two separators equal to 5, the key 8 is routed to a
/// leaf that the chain reads before a leaf holding 5, 6 and 7.
#[test]
fn repeated_separator_keys_break_scan_order() {
    let mut pager = Pager::new();
    let mut root = create_tree(&mut pager).unwrap();
    for k in [5i64, 5, 5, 5, 5, 6, 7, 8] {
        let mut row = k.to_le_bytes().to_vec();
        row.resize(1000, 0);
        root = insert(&mut pager, root, k, &row).unwrap();
    }
    let keys: Vec<i64> = scan_all(&pager, root)
        .unwrap()
        .iter()
        .map(|r| i64::from_le_bytes(r[..8].try_into().unwrap()))
        .collect();
    assert_eq!(keys, vec![5, 5, 5, 5, 8, 5, 6, 7]);
}

#[test]
fn dump_reports_the_node_at_any_depth() {
    let pager = Pager::new();
    assert_eq!(dump_tree(&pager, 0, 1024), Err("Unknown node type 0 at page 0".to_string()));
    assert_eq!(dump_tree(&pager, 0, 5000), Err("Unknown node type 0 at page 0".to_string()));
}

#[test]
fn leaf_cells_read_back_what_was_written() {
    let mut page = vec![0xAAu8; PAGE_SIZE];
    let cells: Vec<(i64, Vec<u8>)> = vec![(4, vec![1, 2, 3]), (-2, vec![]), (9, vec![7u8; 100])];
    write_leaf_cells(&mut page, &cells);
    assert_eq!(collect_leaf_cells(&page), cells);
    assert_eq!(page[0], 0x01);
    assert_eq!(leaf_num_cells(&page), 3);
    assert_eq!(leaf_next_leaf(&page), 0);
    assert_eq!(leaf_free_space(&page), 4085 - (12 + 3) - 12 - (12 + 100));
}
