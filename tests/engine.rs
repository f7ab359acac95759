use hybrid_de::configuration::Configuration;
use hybrid_de::record::Record;
use hybrid_de::tree::LSMTree;

fn lookup(tree: &LSMTree, key: i32) -> Option<i32> {
    let mut value = 0;
    let mut reads = 0u64;
    if tree.get(&key, &mut value, &mut reads) {
        Some(value)
    } else {
        None
    }
}

fn level_bytes(tree: &LSMTree) -> usize {
    tree.levels.iter().map(|l| l.size()).sum()
}

#[test]
fn single_key_round_trip() {
    let mut tree = LSMTree::create_lsmtree(Configuration::new());
    tree.put(&7, &42);
    assert_eq!(lookup(&tree, 7), Some(42));
    assert_eq!(lookup(&tree, 8), None);
}

#[test]
fn overwrite_across_flush() {
    let mut tree = LSMTree::create_lsmtree(Configuration::new());
    for k in 0..4000 {
        tree.put(&k, &(k * 2));
    }
    assert_eq!(tree.levels.len(), 1);
    tree.put(&100, &999);
    assert_eq!(lookup(&tree, 100), Some(999));
    assert_eq!(lookup(&tree, 101), Some(202));
    assert_eq!(lookup(&tree, 3999), Some(7998));
}

#[test]
fn dedup_on_merge() {
    let mut tree = LSMTree::create_lsmtree(Configuration::new());
    for k in 0..3072 {
        tree.put(&k, &k);
    }
    for k in 0..3072 {
        tree.put(&k, &(k + 1));
    }
    for k in 0..3072 {
        assert_eq!(lookup(&tree, k), Some(k + 1));
    }
    // the two flushed batches were merged into one copy of each key
    assert_eq!(level_bytes(&tree), 3072 * 8);
}

#[test]
fn cascading_compaction() {
    let config = Configuration::new();
    let mut tree = LSMTree::create_lsmtree(config);
    // a full-period linear congruential sequence: 200,000 distinct keys
    let mut x: u32 = 12345;
    let mut keys = Vec::new();
    for _ in 0..200_000 {
        x = x.wrapping_mul(1664525).wrapping_add(1013904223);
        let k = x as i32;
        keys.push(k);
        tree.put(&k, &(k ^ 0x5555));
    }
    assert!(tree.levels.len() >= 3);
    let mut bound = config.buffer_capacity;
    for level in tree.levels.iter() {
        bound *= config.size_ratio;
        assert!(level.size() <= bound, "level {} holds {} > {}", level.level(), level.size(), bound);
    }
    assert_eq!(level_bytes(&tree) + tree.buffer.size(), 200_000 * 8);
    assert_eq!(tree.size(), 200_000 * 8);
    for k in keys.iter().step_by(997) {
        assert_eq!(lookup(&tree, *k), Some(*k ^ 0x5555));
    }
}

#[test]
fn last_write_wins_across_compactions() {
    let mut tree = LSMTree::create_lsmtree(Configuration::new());
    for round in 0..5 {
        for k in 0..5000 {
            tree.put(&k, &(k + round * 100_000));
        }
    }
    for k in (0..5000).step_by(7) {
        assert_eq!(lookup(&tree, k), Some(k + 400_000));
    }
}

#[test]
fn shutdown_cleans_files() {
    let mut tree = LSMTree::create_lsmtree(Configuration::new());
    for k in 0..20_000 {
        tree.put(&k, &k);
    }
    assert!(!tree.file_names().is_empty());
    tree.delete_files();
    assert!(tree.file_names().is_empty());
    assert_eq!(level_bytes(&tree), 0);
}

#[test]
fn buffer_below_capacity_does_not_flush() {
    let mut tree = LSMTree::create_lsmtree(Configuration::new());
    for k in 0..3071 {
        tree.put(&k, &k);
    }
    assert_eq!(tree.levels.len(), 0);
    assert_eq!(tree.buffer.size(), 3071 * 8);
    tree.put(&3071, &3071);
    assert_eq!(tree.levels.len(), 1);
    assert_eq!(tree.buffer.size(), 0);
    assert_eq!(tree.levels[0].size(), 3072 * 8);
}

#[test]
fn io_counters_advance() {
    let mut tree = LSMTree::create_lsmtree(Configuration::new());
    for k in 0..3072 {
        tree.put(&k, &k);
    }
    assert!(tree.put_io > 0);
    let mut value = 0;
    let mut reads = 0u64;
    assert!(tree.get(&5, &mut value, &mut reads));
    assert_eq!(value, 5);
    assert_eq!(reads, 1);
    let _ = Record::create_record(0, 0);
}

#[test]
fn bulk_load_correctness() {
    let mut tree = LSMTree::create_lsmtree(Configuration::new());
    // 100,000 records with distinct even keys, then a few rewrites of early
    // keys that must win
    let mut records: Vec<Record> = (0..100_000).map(|i| Record::create_record(i * 2, i)).collect();
    records.push(Record::create_record(0, -1));
    records.push(Record::create_record(20, -2));
    tree.bulk_load(records);
    assert_eq!(tree.levels.len(), 3);
    assert_eq!(lookup(&tree, 0), Some(-1));
    assert_eq!(lookup(&tree, 20), Some(-2));
    for i in (1..100_000).step_by(100) {
        if i != 10 {
            assert_eq!(lookup(&tree, i * 2), Some(i));
        }
        assert_eq!(lookup(&tree, i * 2 + 1), None);
    }
    // the two rewrites sit in level one, above their older copies deeper down
    let total: usize = tree.levels.iter().map(|l| l.size()).sum();
    assert_eq!(total, (100_000 + 2) * 8);
    // the engine keeps working after the load
    tree.put(&3, &33);
    assert_eq!(lookup(&tree, 3), Some(33));
}

#[test]
fn files_hold_sorted_records() {
    let mut tree = LSMTree::create_lsmtree(Configuration::new());
    for k in (0..30_000).rev() {
        tree.put(&k, &k);
    }
    for level in tree.levels.iter() {
        for run in level.runs.iter() {
            let all = run.get_all_records();
            assert!(is_sorted::IsSorted::is_sorted(&mut all.iter().map(|r| r.key)));
            for (i, file) in run.files.iter().enumerate() {
                assert_eq!(run.fence_pointers[i], file.records[0].key);
                assert_eq!(*file.fence_pointers.last().unwrap(), file.records.last().unwrap().key);
                assert_eq!(file.size, file.records.len() * 8);
            }
        }
    }
}
