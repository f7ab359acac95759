use std::collections::HashSet;
use hybrid_de::buffer::MemoryBuffer;
use hybrid_de::codec::{binary_search_fp, bytes_to_records, generate_filename, records_to_bytes};
use hybrid_de::configuration::Configuration;
use hybrid_de::disk_file::DiskFile;
use hybrid_de::instruction::{parse_instruction, HeapNode};
use hybrid_de::level::DiskLevel;
use hybrid_de::merge::{merge_records, merge_two};
use hybrid_de::record::Record;
use hybrid_de::run::Run;

fn recs(pairs: &[(i32, i32)]) -> Vec<Record> {
    pairs.iter().map(|&(k, v)| Record::create_record(k, v)).collect()
}

#[test]
fn codec_exact_bytes() {
    let bytes = records_to_bytes(&recs(&[(1, -1), (0x01020304, 258)]));
    assert_eq!(bytes, vec![0, 0, 0, 1, 255, 255, 255, 255, 1, 2, 3, 4, 0, 0, 1, 2]);
    let back = bytes_to_records(&bytes);
    assert_eq!(back, recs(&[(1, -1), (0x01020304, 258)]));
}

#[test]
fn codec_round_trip_extremes() {
    let input = recs(&[(i32::MIN, i32::MAX), (0, 0), (i32::MAX, i32::MIN)]);
    assert_eq!(bytes_to_records(&records_to_bytes(&input)), input);
    let raw: Vec<u8> = (0u8..48).map(|b| b.wrapping_mul(37)).collect();
    assert_eq!(records_to_bytes(&bytes_to_records(&raw)), raw);
    assert!(bytes_to_records(&[]).is_empty());
}

#[test]
fn fence_search() {
    let fp = vec![10, 20, 30];
    assert_eq!(binary_search_fp(&fp, &5), None);
    assert_eq!(binary_search_fp(&fp, &10), Some(0));
    assert_eq!(binary_search_fp(&fp, &25), Some(1));
    assert_eq!(binary_search_fp(&fp, &30), Some(2));
    assert_eq!(binary_search_fp(&fp, &99), Some(2));
    assert_eq!(binary_search_fp(&vec![], &1), None);
    assert_eq!(binary_search_fp(&vec![4, 4], &4), Some(1));
}

#[test]
fn filenames() {
    assert_eq!(generate_filename(1, 0, 12), "1.0.12");
    assert_eq!(generate_filename(10, 305, 0), "10.305.0");
}

#[test]
fn instructions() {
    let (op, k, v) = parse_instruction("p 5 7").unwrap();
    assert_eq!((op.as_str(), k, v), ("p ", 5, 7));
    let (op, k, v) = parse_instruction("b -12 +40").unwrap();
    assert_eq!((op.as_str(), k, v), ("b ", -12, 40));
    let (op, k, v) = parse_instruction("g 2147483647").unwrap();
    assert_eq!((op.as_str(), k, v), ("g ", 2147483647, 0));
    let (op, k, v) = parse_instruction("g -2147483648").unwrap();
    assert_eq!((op.as_str(), k, v), ("g ", -2147483648, 0));
    let (_, k, v) = parse_instruction("p 99").unwrap();
    assert_eq!((k, v), (0, 0));
    assert!(parse_instruction("g 2147483648").is_none());
    assert!(parse_instruction("g x").is_none());
    assert!(parse_instruction("p 1 ").is_none());
    assert!(parse_instruction("g").is_none());
}

#[test]
fn heap_node_fields() {
    let a = HeapNode::create_heap_node(Record::create_record(3, 0), 0, 1);
    let b = HeapNode::create_heap_node(Record::create_record(3, 1), 2, 1);
    let c = HeapNode::create_heap_node(Record::create_record(1, 0), 0, 1);
    assert_eq!(c.element, Record::create_record(1, 0));
    assert_eq!(a.run_idx, 0);
    assert_eq!(b.next_ele_idx, 1);
}

#[test]
fn buffer_operations() {
    let config = Configuration::new();
    let mut buf = MemoryBuffer::create_buffer(&config);
    assert_eq!(buf.capacity(), 24576);
    assert_eq!(buf.level(), 0);
    assert_eq!(buf.buffer_size, 3072);
    buf.put(&5, &50);
    buf.put(&1, &10);
    buf.put(&5, &55);
    let mut r = Record::create_record(0, 0);
    assert!(buf.get(&5, &mut r));
    assert_eq!(r, Record::create_record(5, 55));
    assert!(!buf.get(&2, &mut r));
    assert_eq!(buf.merge(), recs(&[(1, 10), (5, 55)]));
    assert_eq!(buf.size(), 16);
    assert!(!buf.is_full());
    buf.flush(records_to_bytes(&recs(&[(2, 20), (1, 11), (2, 21)])), 0);
    assert_eq!(buf.merge(), recs(&[(1, 11), (2, 21), (5, 55)]));
    let mut keys = HashSet::new();
    keys.insert(9);
    buf.print_stats(&mut keys);
    assert_eq!(keys.len(), 4);
    buf.clear();
    assert_eq!(buf.size(), 0);
    for k in 0..3072 {
        buf.put(&k, &k);
    }
    assert!(buf.is_full());
}

#[test]
fn merge_newest_wins() {
    let older = recs(&[(1, 1), (3, 3), (5, 5)]);
    let newer = recs(&[(3, 30), (4, 40)]);
    assert_eq!(merge_two(&older, &newer), recs(&[(1, 1), (3, 30), (4, 40), (5, 5)]));
    let inputs = vec![older, newer, recs(&[(1, 100), (9, 900)])];
    assert_eq!(merge_records(&inputs), recs(&[(1, 100), (3, 30), (4, 40), (5, 5), (9, 900)]));
    assert!(merge_records(&vec![]).is_empty());
}

#[test]
fn disk_file_partial_last_block() {
    let config = Configuration::new();
    // 513 records: one full block of 512 and a one-record tail
    let data: Vec<Record> = (0..513).map(|i| Record::create_record(i * 2, i)).collect();
    let file = DiskFile::create_disk_file("1.0.0".to_string(), &records_to_bytes(&data), 513 * 8, &config);
    assert_eq!(file.fence_pointers, vec![0, 1024, 1024]);
    let mut reads = 0u64;
    for i in 0..513 {
        let mut r = Record::create_record(-1, -1);
        assert!(file.get(&(i * 2), &mut r, &mut reads));
        assert_eq!(r, Record::create_record(i * 2, i));
        assert!(!file.get(&(i * 2 + 1), &mut r, &mut reads));
    }
    let mut r = Record::create_record(-1, -1);
    assert!(!file.get(&-5, &mut r, &mut reads));
    assert_eq!(r, Record::create_record(-1, -1));
}

#[test]
fn disk_file_single_record() {
    let config = Configuration::new();
    let file = DiskFile::from_records("2.0.0".to_string(), recs(&[(7, 8)]), &config);
    assert_eq!(file.fence_pointers, vec![7, 7]);
    assert_eq!(file.size, 8);
    let mut r = Record::create_record(0, 0);
    let mut reads = 0u64;
    assert!(file.get(&7, &mut r, &mut reads));
    assert_eq!(r.value, 8);
}

#[test]
fn run_split_into_files() {
    let config = Configuration::new();
    let data: Vec<Record> = (0..7000).map(|i| Record::create_record(i, -i)).collect();
    let bytes = records_to_bytes(&data);
    let run = Run::create_run(bytes.len(), 98304, &bytes, 1, 0, &config);
    assert_eq!(run.files.len(), 3);
    assert_eq!(run.fence_pointers, vec![0, 3072, 6144]);
    assert_eq!(run.files[0].filename, "1.0.0");
    assert_eq!(run.files[2].filename, "1.0.2");
    assert_eq!(run.file_counter, 3);
    assert_eq!(run.get_all_records(), data);
    let mut r = Record::create_record(0, 0);
    let mut reads = 0u64;
    assert!(run.get(&6500, &mut r, &mut reads));
    assert_eq!(r.value, -6500);
    assert!(!run.get(&7000, &mut r, &mut reads));
    assert!(!run.is_full(&config));
    let mut empty = Run::create_empty_run(100, 1, 1);
    empty.insert_files(vec![DiskFile::from_records("x".to_string(), recs(&[(1, 1)]), &config)]);
    assert_eq!(empty.size, 8);
    empty.delete_files();
    assert_eq!(empty.files.len(), 0);
}

#[test]
fn level_fullness() {
    let config = Configuration::new();
    let mut put_io = 0u64;
    let data: Vec<Record> = (0..3072).map(|i| Record::create_record(i, i)).collect();
    // one run holding a quarter of its capacity: not full
    let level = DiskLevel::create_level_from_buffer(data.clone(), 3072 * 8, 98304, 1, &config, &mut put_io);
    assert_eq!(level.runs.len(), 1);
    assert!(!level.is_full(&config));
    // one run exactly at capacity: full
    let level = DiskLevel::create_level_from_buffer(data.clone(), 3072 * 8, 24576, 1, &config, &mut put_io);
    assert_eq!(level.runs.len(), 1);
    assert!(level.is_full(&config));
    assert_eq!(level.capacity(), 24576);
    // two runs in a one-run level: full
    let mut level = DiskLevel::create_level_from_buffer(data.clone(), 3072 * 8, 8192, 1, &config, &mut put_io);
    assert_eq!(level.runs.len(), 1);
    level.flush(vec![recs(&[(5000, 1)])], 8, 24576, 8192, &config, &mut put_io);
    assert!(level.is_full(&config));
    let mut r = Record::create_record(0, 0);
    let mut reads = 0u64;
    assert!(level.get(&5000, &mut r, &mut reads));
    level.clear();
    assert_eq!(level.size(), 0);
    assert!(!level.get(&5000, &mut r, &mut reads));
}

#[test]
fn level_flush_merges_into_tail() {
    let config = Configuration::new();
    let mut put_io = 0u64;
    let first = recs(&[(1, 1), (2, 2), (3, 3)]);
    let mut level = DiskLevel::create_level_from_buffer(first, 24, 98304, 2, &config, &mut put_io);
    level.flush(vec![recs(&[(2, 20), (4, 40)]), recs(&[(4, 400)])], 32, 98304, 98304, &config, &mut put_io);
    assert_eq!(level.runs.len(), 1);
    assert_eq!(level.size(), 32);
    let mut reads = 0u64;
    let all = level.get_all_files(&config, &mut reads);
    assert_eq!(reads, 1);
    assert_eq!(all, vec![recs(&[(1, 1), (2, 20), (3, 3), (4, 400)])]);
}

#[test]
fn disk_file_reads() {
    let config = Configuration::new();
    let data: Vec<Record> = (0..10).map(|i| Record::create_record(i, i * 10)).collect();
    let file = DiskFile::from_records("3.1.4".to_string(), data.clone(), &config);
    assert_eq!(file.read_all_file_records(), data);
    assert_eq!(file.read_all_file_bytes(), records_to_bytes(&data));
    assert_eq!(file.read_file(16, 24), data[2..5].to_vec());
    // a window past the end is cut short
    assert_eq!(file.read_file(64, 4096), data[8..10].to_vec());
    assert!(file.read_file(800, 8).is_empty());
}

#[test]
fn run_bytes() {
    let config = Configuration::new();
    let data: Vec<Record> = (0..5000).map(|i| Record::create_record(i * 3, i)).collect();
    let bytes = records_to_bytes(&data);
    let run = Run::create_run(bytes.len(), bytes.len(), &bytes, 2, 1, &config);
    assert_eq!(run.get_all_bytes(), bytes);
    assert!(run.is_full(&config));
}

#[test]
fn sizing() {
    let config = Configuration::new();
    assert_eq!(config.child_run_capacity(24576), 98304);
    let mut other = config;
    other.size_ratio = 3;
    other.runs_per_level = 2;
    // 100 * 3 / 2 = 150, rounded down to a whole record: 144
    assert_eq!(other.child_run_capacity(100), 144);
    assert_eq!(hybrid_de::merge::blocks_of(4097, 4096), 2);
    assert_eq!(hybrid_de::merge::blocks_of(8192, 4096), 2);
    assert_eq!(hybrid_de::merge::blocks_of(0, 4096), 0);
    let level = DiskLevel::empty_level(98304, 1, &other);
    assert_eq!(level.capacity(), 196608);
    assert_eq!(level.level(), 1);
}

#[test]
fn level_from_merged_runs() {
    let config = Configuration::new();
    let mut put_io = 0u64;
    let inputs = vec![recs(&[(1, 1), (2, 2)]), recs(&[(2, 22), (3, 33)])];
    let level = DiskLevel::create_level(inputs, 24576, 24576, 2, &config, &mut put_io);
    let mut reads = 0u64;
    assert_eq!(level.get_all_files(&config, &mut reads), vec![recs(&[(1, 1), (2, 22), (3, 33)])]);
    assert_eq!(reads, 1);
    // 3072 records make one 24576-byte file: six blocks read
    let big: Vec<Record> = (0..3072).map(|i| Record::create_record(i, i)).collect();
    let big_level = DiskLevel::create_level_from_buffer(big, 3072 * 8, 24576, 1, &config, &mut put_io);
    let mut reads = 0u64;
    let _ = big_level.get_all_files(&config, &mut reads);
    assert_eq!(reads, 6);
    assert_eq!(level.size(), 24);
    assert!(put_io > 0);
    let mut dest = Run::create_empty_run(24576, 4, 2);
    let io_before = put_io;
    let files = hybrid_de::merge::merge_from_files(&vec![recs(&[(5, 5)]), recs(&[(5, 6)])], &mut dest, &config, &mut put_io);
    assert_eq!(files.len(), 1);
    assert_eq!(files[0].filename, "4.2.0");
    assert_eq!(files[0].records, recs(&[(5, 6)]));
    assert_eq!(dest.file_counter, 1);
    // the one 8-byte output file is written as one block
    assert_eq!(put_io - io_before, 1);
}

#[test]
fn level_add_and_dec_capacity() {
    let config = Configuration::new();
    let mut level = DiskLevel::empty_level(100, 3, &config);
    level.add_capacity(50);
    assert_eq!(level.capacity(), 150);
    level.dec_capacity(30);
    assert_eq!(level.capacity(), 120);
}

#[test]
fn run_insert_files_at_sorted_position() {
    let config = Configuration::new();
    let mut run = Run::create_empty_run(1000, 1, 0);
    run.insert_files(vec![
        DiskFile::from_records("a".to_string(), recs(&[(1, 1), (2, 2)]), &config),
        DiskFile::from_records("d".to_string(), recs(&[(40, 4)]), &config),
    ]);
    run.insert_files(vec![
        DiskFile::from_records("b".to_string(), recs(&[(10, 1)]), &config),
        DiskFile::from_records("c".to_string(), recs(&[(20, 2), (30, 3)]), &config),
    ]);
    let names: Vec<&str> = run.files.iter().map(|f| f.filename.as_str()).collect();
    assert_eq!(names, vec!["a", "b", "c", "d"]);
    assert_eq!(run.fence_pointers, vec![1, 10, 20, 40]);
    assert_eq!(run.size, 6 * 8);
    let mut r = Record::create_record(0, 0);
    let mut reads = 0u64;
    assert!(run.get(&30, &mut r, &mut reads));
    assert_eq!(r.value, 3);
    assert_eq!(reads, 1);
}
