use lsm_tree::index::{IndexBlock, IndexBlockIndex, IndexEntry, MetaIndex};
use lsm_tree::journal::{append_record, crc32_of, read_record, recover_journal};
use lsm_tree::order::{compare_keys, starts_with};
use lsm_tree::block::{deserialize_block, serialize_block};
use lsm_tree::writer::{block_index, pack_blocks};
use lsm_tree::index_block::{deserialize_index_block, serialize_index_block};
use lsm_tree::loader::load_index_block;
use lsm_tree::version::{check_header, write_header};
use lsm_tree::{Error, Value};
use std::cmp::Ordering;

fn entry(offset: u64, key: &str) -> IndexEntry {
    IndexEntry { offset, size: 10, start_key: key.as_bytes().to_vec() }
}

fn value(key: &str, v: &str, seqno: u64, tomb: bool) -> Value {
    Value::new(key.as_bytes().to_vec(), v.as_bytes().to_vec(), tomb, seqno)
}

#[test]
fn value_encoding_is_big_endian() {
    let v = value("ab", "xyz", 258, false);
    let mut out = Vec::new();
    v.serialize(&mut out);
    assert_eq!(
        out,
        vec![0, 0, 0, 0, 0, 0, 1, 2, 0, 0, 2, b'a', b'b', 0, 0, 0, 3, b'x', b'y', b'z']
    );
    let (back, end) = Value::deserialize(&out, 0).unwrap();
    assert_eq!(end, out.len());
    assert_eq!(back.key, b"ab".to_vec());
    assert_eq!(back.value, b"xyz".to_vec());
    assert_eq!(back.seqno, 258);
    assert!(!back.is_tombstone);
}

#[test]
fn value_round_trip_tombstone() {
    let v = value("k", "", u64::MAX, true);
    let mut out = vec![9, 9];
    v.serialize(&mut out);
    out.push(42);
    let (back, end) = Value::deserialize(&out, 2).unwrap();
    assert_eq!(end, out.len() - 1);
    assert_eq!(back.seqno, u64::MAX);
    assert!(back.is_tombstone);
    assert!(Value::deserialize(&out[..out.len() - 2], 2).is_none());
}

#[test]
fn index_entry_round_trip() {
    let e = IndexEntry { offset: 0x0102030405060708, size: 0x0a0b0c0d, start_key: b"key".to_vec() };
    let mut out = Vec::new();
    e.serialize(&mut out);
    assert_eq!(&out[..12], &[1, 2, 3, 4, 5, 6, 7, 8, 0x0a, 0x0b, 0x0c, 0x0d]);
    assert_eq!(&out[12..14], &[0, 3]);
    let (back, end) = IndexEntry::deserialize(&out, 0).unwrap();
    assert_eq!(end, 17);
    assert_eq!(back.offset, e.offset);
    assert_eq!(back.size, e.size);
    assert_eq!(back.start_key, e.start_key);
    assert!(IndexEntry::deserialize(&out[..16], 0).is_none());
}

#[test]
fn crc32_check_value() {
    let data = b"123456789";
    assert_eq!(crc32_of(data, 0, data.len()), 0xCBF43926);
    assert_eq!(crc32_of(data, 0, 0), 0);
}

#[test]
fn journal_recovers_all_records() {
    let mut buf = Vec::new();
    for i in 0..5u64 {
        append_record(&mut buf, &value(&format!("k{}", i), "v", i, i == 3));
    }
    let back = recover_journal(&buf);
    assert_eq!(back.len(), 5);
    for (i, v) in back.iter().enumerate() {
        assert_eq!(v.seqno, i as u64);
        assert_eq!(v.key, format!("k{}", i).into_bytes());
        assert_eq!(v.is_tombstone, i == 3);
    }
}

#[test]
fn journal_truncated_mid_record() {
    let mut buf = Vec::new();
    append_record(&mut buf, &value("a", "1", 1, false));
    append_record(&mut buf, &value("b", "2", 2, false));
    let full = buf.len();
    append_record(&mut buf, &value("c", "3", 3, false));
    for cut in full..buf.len() {
        let back = recover_journal(&buf[..cut]);
        assert_eq!(back.len(), 2);
        assert_eq!(back[1].key, b"b".to_vec());
    }
}

#[test]
fn journal_stops_at_bad_checksum() {
    let mut buf = Vec::new();
    append_record(&mut buf, &value("a", "1", 1, false));
    let first = buf.len();
    append_record(&mut buf, &value("b", "2", 2, false));
    buf[first + 5] ^= 0xff;
    assert_eq!(recover_journal(&buf).len(), 1);
    assert!(read_record(&buf, first).is_none());
    assert!(read_record(&buf, 0).is_some());
}

#[test]
fn key_order_and_prefix() {
    assert_eq!(compare_keys(b"a", b"ab"), Ordering::Less);
    assert_eq!(compare_keys(b"b", b"ab"), Ordering::Greater);
    assert_eq!(compare_keys(b"", b""), Ordering::Equal);
    assert!(starts_with(b"abc", b"ab"));
    assert!(!starts_with(b"ab", b"abc"));
    assert!(starts_with(b"x", b""));
}

fn sample_index() -> MetaIndex {
    let items = vec![
        entry(0, "b"),
        entry(10, "d"),
        entry(20, "f"),
        entry(30, "h"),
        entry(40, "j"),
    ];
    MetaIndex::from_items(7, items, 2).unwrap()
}

#[test]
fn meta_index_partitions() {
    let m = sample_index();
    assert_eq!(m.blocks.len(), 3);
    assert_eq!(m.index.len(), 3);
    assert_eq!(m.index[1].start_key, b"f".to_vec());
    assert_eq!(m.blocks[2].items.len(), 1);
    assert!(MetaIndex::from_items(7, vec![], 2).is_none());
    assert!(MetaIndex::from_items(7, vec![entry(0, "b")], 0).is_none());
    assert!(MetaIndex::from_items(7, vec![entry(0, "b"), entry(1, "a")], 2).is_none());
    assert!(MetaIndex::from_items(7, vec![entry(0, "b"), entry(1, "b")], 2).is_none());
}

#[test]
fn meta_index_lower_bound() {
    let m = sample_index();
    assert!(m.get_lower_bound_block_info(b"a").is_none());
    assert_eq!(m.get_lower_bound_block_info(b"b").unwrap().offset, 0);
    assert_eq!(m.get_lower_bound_block_info(b"e").unwrap().offset, 10);
    assert_eq!(m.get_lower_bound_block_info(b"g").unwrap().offset, 20);
    assert_eq!(m.get_lower_bound_block_info(b"z").unwrap().offset, 40);
    assert_eq!(m.get_latest(b"i").unwrap().offset, 30);
}

#[test]
fn meta_index_upper_bound_crosses_blocks() {
    let m = sample_index();
    assert_eq!(m.get_upper_bound_block_info(b"a").unwrap().offset, 0);
    assert_eq!(m.get_upper_bound_block_info(b"d").unwrap().offset, 20);
    assert_eq!(m.get_upper_bound_block_info(b"e").unwrap().offset, 20);
    assert_eq!(m.get_next_block_key(b"h").unwrap().offset, 40);
    assert!(m.get_upper_bound_block_info(b"j").is_none());
}

#[test]
fn meta_index_previous_first_last() {
    let m = sample_index();
    assert!(m.get_previous_block_key(b"b").is_none());
    assert_eq!(m.get_previous_block_key(b"f").unwrap().offset, 10);
    assert_eq!(m.get_previous_block_key(b"g").unwrap().offset, 20);
    assert_eq!(m.get_previous_block_key(b"zz").unwrap().offset, 40);
    assert_eq!(m.get_first_block_key().offset, 0);
    assert_eq!(m.get_last_block_key().offset, 40);
}

#[test]
fn meta_index_prefix_upper_bound() {
    let items = vec![entry(0, "a"), entry(1, "ab"), entry(2, "abc"), entry(3, "b"), entry(4, "c")];
    let m = MetaIndex::from_items(1, items, 2).unwrap();
    assert_eq!(m.get_prefix_upper_bound(b"ab").unwrap().offset, 3);
    assert_eq!(m.get_prefix_upper_bound(b"a").unwrap().offset, 3);
    assert!(m.get_prefix_upper_bound(b"").is_none());
    assert!(m.get_prefix_upper_bound(b"c").is_none());
}

#[test]
fn index_block_search() {
    let b = IndexBlock { items: vec![entry(0, "b"), entry(1, "d"), entry(2, "f")] };
    assert_eq!(b.get_lower_bound_block_info(b"d").unwrap().offset, 1);
    assert_eq!(b.get_previous_block_info(b"d").unwrap().offset, 0);
    assert_eq!(b.get_next_block_info(b"d").unwrap().offset, 2);
    assert!(b.get_next_block_info(b"f").is_none());
    assert!(b.get_previous_block_info(b"b").is_none());
}

#[test]
fn index_block_cache_evicts_least_recent() {
    let mut cache = IndexBlockIndex::new(2);
    let block = |k: &str| IndexBlock { items: vec![entry(0, k)] };
    cache.insert(1, b"a".to_vec(), block("a"));
    cache.insert(1, b"b".to_vec(), block("b"));
    assert!(cache.get(1, b"a").is_some());
    cache.insert(2, b"a".to_vec(), block("c"));
    assert!(cache.get(1, b"b").is_none());
    assert_eq!(cache.get(1, b"a").unwrap().items[0].start_key, b"a".to_vec());
    assert_eq!(cache.get(2, b"a").unwrap().items[0].start_key, b"c".to_vec());
    cache.insert(2, b"a".to_vec(), block("d"));
    assert_eq!(cache.get(2, b"a").unwrap().items[0].start_key, b"d".to_vec());
    assert_eq!(cache.entries.len(), 2);
}

#[test]
fn block_round_trip_with_checksum() {
    let values = vec![value("a", "1", 3, false), value("b", "", 2, true), value("c", "33", 1, false)];
    let bytes = serialize_block(&values);
    assert_eq!(&bytes[..4], &[0, 0, 0, 3]);
    let back = deserialize_block(&bytes).unwrap();
    assert_eq!(back.len(), 3);
    for (x, y) in back.iter().zip(values.iter()) {
        assert_eq!(x.key, y.key);
        assert_eq!(x.value, y.value);
        assert_eq!(x.seqno, y.seqno);
        assert_eq!(x.is_tombstone, y.is_tombstone);
    }
    let empty = serialize_block(&Vec::new());
    assert_eq!(empty, vec![0, 0, 0, 0, 0, 0, 0, 0]);
    assert_eq!(deserialize_block(&empty).unwrap().len(), 0);
}

#[test]
fn block_errors() {
    let values = vec![value("a", "1", 3, false), value("b", "2", 2, false)];
    let mut bytes = serialize_block(&values);
    let n = bytes.len();
    assert_eq!(deserialize_block(&bytes[..n - 2]).err(), Some(Error::Deserialize));
    assert_eq!(deserialize_block(&bytes[..10]).err(), Some(Error::Deserialize));
    bytes[n - 1] ^= 1;
    assert_eq!(deserialize_block(&bytes).err(), Some(Error::CrcMismatch));
    bytes[n - 1] ^= 1;
    bytes[20] ^= 0x40;
    assert_eq!(deserialize_block(&bytes).err(), Some(Error::CrcMismatch));
}

#[test]
fn packing_respects_block_size() {
    // each record "kN" -> 1-byte value takes 15 + 2 + 1 = 18 bytes; a block header is 8
    let values: Vec<Value> = (0..7).map(|i| value(&format!("k{}", i), "v", i, false)).collect();
    let chunks = pack_blocks(&values, 8 + 3 * 18);
    assert_eq!(chunks.iter().map(|c| c.len()).collect::<Vec<_>>(), vec![3, 3, 1]);
    let big = vec![value("a", &"x".repeat(100), 1, false), value("b", "y", 2, false)];
    let chunks = pack_blocks(&big, 50);
    assert_eq!(chunks.iter().map(|c| c.len()).collect::<Vec<_>>(), vec![1, 1]);
    assert!(pack_blocks(&Vec::new(), 50).is_empty());
}

#[test]
fn block_index_positions() {
    let values: Vec<Value> = (0..7).map(|i| value(&format!("k{}", i), "v", i, false)).collect();
    let chunks = pack_blocks(&values, 8 + 3 * 18);
    let index = block_index(&chunks, 6, 8 + 3 * 18).unwrap();
    assert_eq!(index.len(), 3);
    assert_eq!((index[0].offset, index[0].size), (6, 62));
    assert_eq!((index[1].offset, index[1].size), (68, 62));
    assert_eq!((index[2].offset, index[2].size), (130, 26));
    assert_eq!(index[1].start_key, b"k3".to_vec());
    let mut file = Vec::new();
    for c in &chunks {
        file.extend(serialize_block(c));
    }
    let second = &file[(index[1].offset - 6) as usize..(index[1].offset - 6 + index[1].size as u64) as usize];
    assert_eq!(deserialize_block(second).unwrap()[0].key, b"k3".to_vec());
    assert!(block_index(&chunks, u64::MAX - 100, 8 + 3 * 18).is_none());
}

#[test]
fn index_block_round_trip_and_checksum() {
    let entries = vec![entry(0, "a"), entry(62, "k3"), entry(124, "zz")];
    let mut bytes = serialize_index_block(&entries);
    assert_eq!(&bytes[..4], &[0, 0, 0, 3]);
    let back = deserialize_index_block(&bytes).unwrap();
    assert_eq!(back.len(), 3);
    assert_eq!(back[1].offset, 62);
    assert_eq!(back[2].start_key, b"zz".to_vec());
    let n = bytes.len();
    assert_eq!(deserialize_index_block(&bytes[..n - 1]).err(), Some(Error::Deserialize));
    bytes[6] ^= 1;
    assert_eq!(deserialize_index_block(&bytes).err(), Some(Error::CrcMismatch));
}

#[test]
fn version_header() {
    let mut out = vec![];
    write_header(&mut out);
    assert_eq!(out, b"LSM\x00\x01".to_vec());
    out.push(9);
    assert_eq!(check_header(&out), Ok(5));
    assert_eq!(check_header(b"LSM\x00\x02"), Err(Error::VersionMismatch));
    assert_eq!(check_header(b"LS"), Err(Error::VersionMismatch));
}

#[test]
fn index_blocks_load_through_the_cache() {
    let first = serialize_index_block(&vec![entry(0, "a"), entry(10, "b")]);
    let second = serialize_index_block(&vec![entry(20, "m")]);
    let mut file = vec![7u8; 3];
    file.extend(first.clone());
    file.extend(second.clone());
    let top0 = IndexEntry { offset: 3, size: first.len() as u32, start_key: b"a".to_vec() };
    let top1 = IndexEntry { offset: 3 + first.len() as u64, size: second.len() as u32, start_key: b"m".to_vec() };
    let mut cache = IndexBlockIndex::new(4);
    let b0 = load_index_block(&mut cache, 1, &top0, &file).unwrap();
    assert_eq!(b0.items.len(), 2);
    assert!(cache.get(1, b"a").is_some());
    let b1 = load_index_block(&mut cache, 1, &top1, &file).unwrap();
    assert_eq!(b1.items[0].offset, 20);
    // a cached block is served without reading the file
    let b0_again = load_index_block(&mut cache, 1, &top0, &[]).unwrap();
    assert_eq!(b0_again.items[1].offset, 10);
    let far = IndexEntry { offset: 1000, size: 4, start_key: b"z".to_vec() };
    assert_eq!(load_index_block(&mut cache, 1, &far, &file).err(), Some(Error::Deserialize));
    let bad = IndexEntry { offset: 0, size: 8, start_key: b"y".to_vec() };
    assert!(load_index_block(&mut cache, 1, &bad, &file).is_err());
}
