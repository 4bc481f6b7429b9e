use lsm_tree::journal::{append_record, recover_journal};
use lsm_tree::recovery::{all_listed_found, classify_journal, orphan_segments, JournalAction};
use lsm_tree::{Config, Error, Segment, Tree, Value};

fn value(key: &str, v: &str, seqno: u64) -> Value {
    Value::new(key.as_bytes().to_vec(), v.as_bytes().to_vec(), false, seqno)
}

#[test]
fn orphan_segment_folders_are_found() {
    let listed = vec![1, 3, 5];
    let found = vec![5, 2, 3, 4, 1];
    assert_eq!(orphan_segments(&listed, &found), vec![2, 4]);
    assert!(all_listed_found(&listed, &found));
    assert!(!all_listed_found(&vec![1, 9], &found));
}

#[test]
fn journal_classification() {
    assert_eq!(classify_journal(0, false, false, 100), JournalAction::Remove);
    assert_eq!(classify_journal(10, false, false, 100), JournalAction::Activate);
    assert_eq!(classify_journal(10, true, false, 100), JournalAction::Flush);
    assert_eq!(classify_journal(10, false, true, 100), JournalAction::Flush);
    assert_eq!(classify_journal(100, false, false, 100), JournalAction::Flush);
}

#[test]
fn segment_from_unsorted_records() {
    let g = Segment::from_records(4, 0, vec![value("b", "2", 3), value("a", "1", 1), value("b", "0", 2)])
        .unwrap();
    assert!(g.validate());
    assert_eq!(g.items[0].key, b"a".to_vec());
    assert_eq!(g.items[1].seqno, 3);
    assert_eq!(g.metadata.item_count, 3);
    assert_eq!(g.metadata.seqnos, (1, 3));
    assert_eq!(g.metadata.key_range, (b"a".to_vec(), b"b".to_vec()));
    assert_eq!(g.get(b"b").unwrap().value, b"2".to_vec());
    assert!(Segment::from_records(4, 0, vec![]).is_none());
}

#[test]
fn write_flush_reopen_read() {
    let mut journal = Vec::new();
    let mut flushed = Vec::new();
    for i in 0..10u64 {
        let v = value(&format!("k{}", i), &format!("v{}", i), i);
        if i < 6 {
            flushed.push(v);
        } else {
            append_record(&mut journal, &v);
        }
    }
    let seg = Segment::from_records(1, 0, flushed).unwrap();
    let active = recover_journal(&journal);
    let tree = Tree::recover(Config::new(), active, vec![seg]).unwrap();
    assert_eq!(tree.lsn, 10);
    assert_eq!(tree.len(), 10);
    for i in 0..10u64 {
        let key = format!("k{}", i).into_bytes();
        assert_eq!(tree.get(&key), Some(format!("v{}", i).into_bytes()));
    }
}

#[test]
fn recover_rejects_stale_journal() {
    let seg = Segment::from_records(1, 0, vec![value("a", "1", 5)]).unwrap();
    let r = Tree::recover(Config::new(), vec![value("a", "0", 4)], vec![seg]);
    assert!(matches!(r, Err(Error::CorruptedManifest)));
}

#[test]
fn recover_rejects_overlapping_deep_level() {
    let g1 = Segment::from_records(1, 1, vec![value("a", "1", 5), value("c", "1", 6)]).unwrap();
    let g2 = Segment::from_records(2, 1, vec![value("b", "1", 2)]).unwrap();
    assert!(matches!(Tree::recover(Config::new(), vec![], vec![g1, g2]), Err(Error::CorruptedManifest)));
    let g1 = Segment::from_records(1, 1, vec![value("a", "1", 5)]).unwrap();
    let g2 = Segment::from_records(2, 1, vec![value("b", "1", 2)]).unwrap();
    let t = Tree::recover(Config::new(), vec![], vec![g1, g2]).unwrap();
    assert_eq!(t.lsn, 6);
}

#[test]
fn recover_empty() {
    let t = Tree::recover(Config::new(), vec![], vec![]).unwrap();
    assert_eq!(t.lsn, 0);
    assert!(t.is_empty());
}

#[test]
fn recover_counter_passes_segment_metadata() {
    let g = Segment::from_records(1, 0, vec![value("a", "1", 7), value("b", "2", 3)]).unwrap();
    assert_eq!(g.metadata.seqnos, (3, 7));
    assert_eq!(g.metadata.file_size, 2 * 17);
    let t = Tree::recover(Config::new(), vec![value("c", "3", 9), value("a", "4", 8)], vec![g]).unwrap();
    assert_eq!(t.lsn, 10);
    assert_eq!(t.active_memtable.len(), 2);
    assert_eq!(t.get(b"a"), Some(b"4".to_vec()));
}
