use lsm_tree::{CompareAndSwapError, Config, Error, KeyBound, Tree};

fn b(s: &str) -> Vec<u8> {
    s.as_bytes().to_vec()
}

fn pairs(v: Vec<(Vec<u8>, Vec<u8>)>) -> Vec<(String, String)> {
    v.into_iter()
        .map(|(k, v)| (String::from_utf8(k).unwrap(), String::from_utf8(v).unwrap()))
        .collect()
}

#[test]
fn range_over_three_keys() {
    let mut tree = Tree::open(Config::new());
    tree.insert(b("a"), b("1")).unwrap();
    tree.insert(b("b"), b("2")).unwrap();
    tree.insert(b("c"), b("3")).unwrap();
    let r = tree.range(KeyBound::Included(b("a")), KeyBound::Included(b("c")));
    assert_eq!(
        pairs(r),
        vec![
            ("a".to_string(), "1".to_string()),
            ("b".to_string(), "2".to_string()),
            ("c".to_string(), "3".to_string())
        ]
    );
    assert_eq!(tree.len(), 3);
}

#[test]
fn insert_remove_insert() {
    let mut tree = Tree::open(Config::new());
    tree.insert(b("k"), b("v1")).unwrap();
    tree.remove(b("k")).unwrap();
    assert_eq!(tree.get(b"k"), None);
    tree.insert(b("k"), b("v2")).unwrap();
    assert_eq!(tree.get(b"k"), Some(b("v2")));
    assert!(tree.contains_key(b"k"));
}

#[test]
fn compare_and_swap_scenario() {
    let mut tree = Tree::open(Config::new());
    tree.insert(b("x"), b("a")).unwrap();
    let r = tree.compare_and_swap(b"x", Some(&b("a")), Some(&b("b"))).unwrap();
    assert!(r.is_ok());
    let r = tree.compare_and_swap(b"x", Some(&b("a")), Some(&b("c"))).unwrap();
    match r {
        Err(CompareAndSwapError { prev, next }) => {
            assert_eq!(prev, Some(b("b")));
            assert_eq!(next, Some(b("c")));
        }
        Ok(()) => panic!("swap should fail"),
    }
    assert_eq!(tree.get(b"x"), Some(b("b")));
}

#[test]
fn compare_and_swap_absent_and_delete() {
    let mut tree = Tree::open(Config::new());
    assert!(tree.compare_and_swap(b"y", None, Some(&b("1"))).unwrap().is_ok());
    assert_eq!(tree.get(b"y"), Some(b("1")));
    assert!(tree.compare_and_swap(b"y", None, Some(&b("2"))).unwrap().is_err());
    assert!(tree.compare_and_swap(b"y", Some(&b("1")), None).unwrap().is_ok());
    assert_eq!(tree.get(b"y"), None);
}

#[test]
fn prefix_scan() {
    let mut tree = Tree::open(Config::new());
    tree.insert(b("a"), b("1")).unwrap();
    tree.insert(b("ab"), b("2")).unwrap();
    tree.insert(b("abc"), b("3")).unwrap();
    tree.insert(b("b"), b("4")).unwrap();
    assert_eq!(
        pairs(tree.prefix(b("ab"))),
        vec![("ab".to_string(), "2".to_string()), ("abc".to_string(), "3".to_string())]
    );
}

#[test]
fn empty_key_is_accepted() {
    let mut tree = Tree::open(Config::new());
    tree.insert(Vec::new(), b("e")).unwrap();
    assert_eq!(tree.get(b""), Some(b("e")));
}

#[test]
fn max_length_key_is_accepted() {
    let mut tree = Tree::open(Config::new());
    let key = vec![7u8; 65535];
    tree.insert(key.clone(), b("v")).unwrap();
    assert_eq!(tree.get(&key), Some(b("v")));
    let too_long = vec![7u8; 65536];
    assert_eq!(tree.insert(too_long.clone(), b("v")), Err(Error::Serialize));
    assert_eq!(tree.remove(too_long), Err(Error::Serialize));
}

#[test]
fn remove_entry_returns_value() {
    let mut tree = Tree::open(Config::new());
    assert_eq!(tree.remove_entry(b"a").unwrap(), None);
    tree.insert(b("a"), b("abc")).unwrap();
    assert_eq!(tree.remove_entry(b"a").unwrap(), Some(b("abc")));
    assert!(tree.is_empty());
}

#[test]
fn first_and_last() {
    let mut tree = Tree::open(Config::new());
    assert_eq!(tree.first_key_value(), None);
    assert!(tree.is_empty());
    tree.insert(b("3"), b("c")).unwrap();
    tree.insert(b("1"), b("a")).unwrap();
    tree.insert(b("5"), b("e")).unwrap();
    assert_eq!(tree.first_key_value(), Some((b("1"), b("a"))));
    assert_eq!(tree.last_key_value(), Some((b("5"), b("e"))));
    assert!(!tree.is_empty());
}

#[test]
fn range_bounds_exclusive() {
    let mut tree = Tree::open(Config::new());
    for k in ["a", "b", "c", "d"] {
        tree.insert(b(k), b(k)).unwrap();
    }
    let r = tree.range(KeyBound::Excluded(b("a")), KeyBound::Excluded(b("d")));
    assert_eq!(pairs(r).len(), 2);
    let r = tree.range(KeyBound::Unbounded, KeyBound::Included(b("b")));
    assert_eq!(pairs(r).len(), 2);
    assert_eq!(tree.iter().len(), 4);
}

#[test]
fn reads_through_segments() {
    let mut tree = Tree::open(Config::new());
    tree.insert(b("a"), b("old")).unwrap();
    tree.insert(b("b"), b("1")).unwrap();
    tree.wait_for_memtable_flush();
    tree.insert(b("a"), b("new")).unwrap();
    tree.remove(b("b")).unwrap();
    tree.wait_for_memtable_flush();
    assert_eq!(tree.segments.len(), 2);
    assert_eq!(tree.get(b"a"), Some(b("new")));
    assert_eq!(tree.get(b"b"), None);
    assert_eq!(tree.len(), 1);
}

#[test]
fn memtable_flushes_when_full() {
    let mut config = Config::new();
    let n: usize = 200_000;
    let record = 23 + 9 + 1024;
    config.max_memtable_size = (n * record - 1) as u32;
    let mut tree = Tree::open(config);
    for i in 0..n {
        let key = format!("key{:06}", i).into_bytes();
        tree.insert(key, vec![(i % 251) as u8; 1024]).unwrap();
    }
    assert_eq!(tree.segments.len(), 1);
    assert_eq!(tree.segments[0].level, 0);
    assert_eq!(tree.segments[0].metadata.item_count, 200_000);
    assert!(tree.active_memtable.is_empty());
    for i in (0..n).step_by(997) {
        let key = format!("key{:06}", i).into_bytes();
        assert_eq!(tree.get(&key), Some(vec![(i % 251) as u8; 1024]));
    }
}

#[test]
fn major_compaction_keeps_live_keys() {
    let mut tree = Tree::open(Config::new());
    for round in 0..6u32 {
        for i in 0..20u32 {
            let key = format!("k{:02}", i).into_bytes();
            if (i + round) % 3 == 0 {
                tree.remove(key).unwrap();
            } else {
                tree.insert(key, format!("v{}-{}", round, i).into_bytes()).unwrap();
            }
        }
        tree.wait_for_memtable_flush();
    }
    assert_eq!(tree.segments.len(), 6);
    let before = tree.iter();
    let size_before: u64 = tree.segments.iter().map(|s| s.metadata.file_size).sum();
    tree.do_major_compaction();
    assert_eq!(tree.segments.len(), 1);
    assert_eq!(tree.segments[0].level, 6);
    assert!(tree.segments[0].items.iter().all(|v| !v.is_tombstone));
    assert_eq!(tree.iter(), before);
    let size_after: u64 = tree.segments.iter().map(|s| s.metadata.file_size).sum();
    assert!(size_after < size_before);
    for i in 0..20u32 {
        let key = format!("k{:02}", i).into_bytes();
        let expect = if (i + 5) % 3 == 0 { None } else { Some(format!("v5-{}", i).into_bytes()) };
        assert_eq!(tree.get(&key), expect);
    }
}

#[test]
fn sequence_numbers_increase() {
    let mut tree = Tree::open(Config::new());
    tree.insert(b("a"), b("1")).unwrap();
    tree.remove(b("a")).unwrap();
    assert_eq!(tree.lsn, 2);
    assert_eq!(tree.active_memtable[0].seqno, 1);
    assert!(tree.active_memtable[0].is_tombstone);
}

#[test]
fn batch_applies_all_writes() {
    let mut tree = Tree::open(Config::new());
    tree.insert(b("gone"), b("x")).unwrap();
    let mut batch = tree.batch();
    batch.insert(b("a"), b("hello"));
    batch.insert(b("b"), b("hello2"));
    batch.insert(b("c"), b("hello3"));
    batch.remove(b("gone"));
    batch.commit(&mut tree).unwrap();
    assert_eq!(tree.len(), 3);
    assert_eq!(tree.lsn, 5);
}

#[test]
fn batch_with_oversized_key_writes_nothing() {
    let mut tree = Tree::open(Config::new());
    let mut batch = tree.batch();
    batch.insert(b("a"), b("1"));
    batch.insert(vec![0u8; 70000], b("2"));
    assert_eq!(batch.commit(&mut tree), Err(Error::Serialize));
    assert!(tree.is_empty());
    assert_eq!(tree.lsn, 0);
}

#[test]
fn entry_occupied_and_vacant() {
    let mut tree = Tree::open(Config::new());
    tree.insert(b("a"), b("abc")).unwrap();
    match tree.entry(b"a") {
        lsm_tree::tree::Entry::Occupied { key, value } => {
            assert_eq!(key, b("a"));
            assert_eq!(value, b("abc"));
        }
        lsm_tree::tree::Entry::Vacant { .. } => panic!("should be occupied"),
    }
    assert!(matches!(tree.entry(b"z"), lsm_tree::tree::Entry::Vacant { .. }));
}

#[test]
fn fetch_update_and_update_fetch() {
    let mut tree = Tree::open(Config::new());
    tree.insert(b("key"), b("a")).unwrap();
    let prev = tree.fetch_update(b"key", |_| Some(b("b"))).unwrap();
    assert_eq!(prev, Some(b("a")));
    assert_eq!(tree.get(b"key"), Some(b("b")));
    let prev = tree.fetch_update(b"key", |_| None).unwrap();
    assert_eq!(prev, Some(b("b")));
    assert!(tree.is_empty());
    tree.insert(b("key"), b("a")).unwrap();
    let next = tree.update_fetch(b"key", |v| v.map(|mut x| { x.push(b'!'); x })).unwrap();
    assert_eq!(next, Some(b("a!")));
    let next = tree.update_fetch(b"key", |_| None).unwrap();
    assert_eq!(next, None);
    assert!(tree.is_empty());
}

#[test]
fn counts_and_disk_space() {
    let mut tree = Tree::open(Config::new());
    assert_eq!(tree.segment_count(), 0);
    assert_eq!(tree.disk_space(), 0);
    tree.insert(b("ab"), b("xyz")).unwrap();
    assert_eq!(tree.disk_space(), 23 + 2 + 3);
    tree.wait_for_memtable_flush();
    assert_eq!(tree.segment_count(), 1);
    assert_eq!(tree.disk_space(), 15 + 2 + 3);
    assert!(!tree.is_compacting());
}

fn fill_round(tree: &mut Tree, round: u32) {
    for i in 0..20u32 {
        let key = format!("k{:02}", i).into_bytes();
        if (i + round) % 4 == 0 {
            tree.remove(key).unwrap();
        } else {
            tree.insert(key, format!("v{}-{}", round, i).into_bytes()).unwrap();
        }
    }
    tree.wait_for_memtable_flush();
}

#[test]
fn leveled_then_major_compaction() {
    let mut tree = Tree::open(Config::new());
    for round in 0..4u32 {
        fill_round(&mut tree, round);
    }
    assert!(!tree.maybe_compact(5));
    assert_eq!(tree.segments.len(), 4);
    let before = tree.iter();
    assert!(tree.maybe_compact(4));
    assert_eq!(tree.segments.len(), 1);
    assert_eq!(tree.segments[0].level, 1);
    assert_eq!(tree.segments[0].metadata.item_count, 80);
    assert!(tree.segments[0].items.iter().any(|v| v.is_tombstone));
    assert_eq!(tree.iter(), before);
    for round in 4..10u32 {
        fill_round(&mut tree, round);
    }
    assert_eq!(tree.level0_count(), 6);
    assert_eq!(tree.segments.len(), 7);
    let before = tree.iter();
    let space_before = tree.disk_space();
    tree.do_major_compaction();
    assert_eq!(tree.segments.len(), 1);
    assert_eq!(tree.segments[0].level, 6);
    assert!(tree.segments[0].items.iter().all(|v| !v.is_tombstone));
    assert_eq!(tree.iter(), before);
    assert!(tree.disk_space() < space_before);
    for i in 0..20u32 {
        let key = format!("k{:02}", i).into_bytes();
        let expect = if (i + 9) % 4 == 0 { None } else { Some(format!("v9-{}", i).into_bytes()) };
        assert_eq!(tree.get(&key), expect);
    }
}

#[test]
fn writes_carry_the_counter() {
    let mut tree = Tree::open(Config::new());
    tree.insert(b("k"), b("v")).unwrap();
    let x = tree.get_internal_entry(b"k", false).unwrap();
    assert_eq!((x.seqno, x.is_tombstone, x.value.clone()), (0, false, b("v")));
    tree.remove(b("k")).unwrap();
    let x = tree.get_internal_entry(b"k", false).unwrap();
    assert_eq!((x.seqno, x.is_tombstone, x.value.len()), (1, true, 0));
    assert!(tree.get_internal_entry(b"k", true).is_none());
    let r = tree.compare_and_swap(b"k", Some(&b("v")), None).unwrap();
    assert!(r.is_err());
    assert_eq!(tree.lsn, 2);
    assert!(tree.compare_and_swap(b"k", None, Some(&b("w"))).unwrap().is_ok());
    assert_eq!(tree.lsn, 3);
}

#[test]
fn journal_size_decides_the_flush() {
    let mut config = Config::new();
    config.max_memtable_size = 60;
    let mut tree = Tree::open(config);
    tree.insert(b("a"), b("1")).unwrap();
    assert_eq!(tree.active_journal_size_bytes, 25);
    tree.insert(b("b"), b("2")).unwrap();
    assert_eq!(tree.active_journal_size_bytes, 50);
    assert_eq!(tree.segment_count(), 0);
    tree.insert(b("c"), b("3")).unwrap();
    assert_eq!(tree.segment_count(), 1);
    assert_eq!(tree.segments[0].items.len(), 3);
    assert_eq!(tree.active_journal_size_bytes, 0);
}
