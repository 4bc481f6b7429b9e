use vstd::prelude::*;
use crate::order::key_lt;
use crate::run::{find_newest, has_key, insert_sorted, is_newest, lemma_sorted_unique, records, sorted};
use crate::scan::{
    everything, insert_pair, is_scan, keys_ascending, lists_key, pairs_of, select, KeyBound, KeyFilter,
    KvPair,
};
use crate::segment::Segment;
use crate::value::{record_fits, Record, Value, MAX_KEY_LEN, MAX_VALUE_LEN};

verus! {

/// Kinds of failure.
#[derive(Debug, PartialEq, Eq, Structural)]
pub enum Error {
    /// A key or value is too long to be encoded.
    Serialize,
    /// Bytes do not hold a well-formed record.
    Deserialize,
    /// A checksum does not match its data.
    CrcMismatch,
    /// Recovered parts do not fit together.
    CorruptedManifest,
    /// A file does not start with this format's version header.
    VersionMismatch,
}

/// Settings of a tree.
pub struct Config {
    /// Journal bytes after which the active memtable is flushed.
    pub max_memtable_size: u32,
    /// Number of levels.
    pub levels: usize,
}

impl Config {
    /// Default settings: 64 MiB memtables and seven levels.
    pub fn new() -> (r: Config)
        ensures
            r.max_memtable_size == 67108864,
            r.levels == 7,
    {
        Config { max_memtable_size: 67108864, levels: 7 }
    }
}

/// The value found where a compare-and-swap expected another.
pub struct CompareAndSwapError {
    /// The value currently in the tree that caused the failure.
    pub prev: Option<Vec<u8>>,
    /// The value that was proposed.
    pub next: Option<Vec<u8>>,
}

pub type CompareAndSwapResult = Result<(), CompareAndSwapError>;

/// A log-structured merge tree.
///
/// Writes go to the active memtable; a full memtable becomes a level-0
/// segment. Segments are kept in read order: level 0 newest first, then the
/// deeper levels by key range.
pub struct Tree {
    pub config: Config,
    /// The next sequence number to hand out.
    pub lsn: u64,
    /// The active memtable, sorted by internal key.
    pub active_memtable: Vec<Value>,
    /// Journal bytes backing the active memtable, saturated at `u32::MAX`.
    pub active_journal_size_bytes: u32,
    pub segments: Vec<Segment>,
    pub next_segment_id: u64,
}

pub open spec fn opt_bytes(o: Option<Vec<u8>>) -> Option<Seq<u8>> {
    match o {
        Some(v) => Some(v@),
        None => None,
    }
}

impl View for Tree {
    type V = Map<Seq<u8>, Seq<u8>>;

    /// The visible mappings: each key to the value of its newest record,
    /// unless that record is a tombstone.
    open spec fn view(&self) -> Map<Seq<u8>, Seq<u8>> {
        Map::new(|k: Seq<u8>| self.visible(k).is_some(), |k: Seq<u8>| self.visible(k).unwrap())
    }
}

impl Tree {
    /// Number of components in read order: the active memtable, then each segment.
    pub open spec fn ncomps(&self) -> int {
        self.segments@.len() + 1int
    }

    /// The records of component `i` in read order.
    pub open spec fn comp(&self, i: int) -> Seq<Record> {
        if i == 0 {
            records(self.active_memtable@)
        } else {
            self.segments@[i - 1].view_items()
        }
    }

    /// `r` is held by some component.
    pub open spec fn holds(&self, r: Record) -> bool {
        exists|i: int| 0 <= i < self.ncomps() && #[trigger] self.comp(i).contains(r)
    }

    /// `r` is the record of `k` with the greatest sequence number in the tree.
    pub open spec fn is_latest(&self, k: Seq<u8>, r: Record) -> bool {
        &&& self.holds(r)
        &&& r.key == k
        &&& forall|y: Record| #[trigger] self.holds(y) && y.key == k ==> y.seqno <= r.seqno
    }

    pub open spec fn lookup(&self, k: Seq<u8>) -> Option<Record> {
        if exists|r: Record| self.is_latest(k, r) {
            Some(choose|r: Record| self.is_latest(k, r))
        } else {
            None
        }
    }

    pub open spec fn visible(&self, k: Seq<u8>) -> Option<Seq<u8>> {
        match self.lookup(k) {
            Some(r) => if r.tombstone {
                None
            } else {
                Some(r.value)
            },
            None => None,
        }
    }

    /// Segments at `i < j` of the same level `>= 1` hold disjoint, ascending key ranges.
    pub open spec fn levels_disjoint(&self) -> bool {
        forall|i: int, j: int|
            0 <= i < j < self.segments@.len() && (#[trigger] self.segments@[i]).level >= 1
                && self.segments@[i].level == (#[trigger] self.segments@[j]).level ==> key_lt(
                self.segments@[i].metadata.key_range.1@,
                self.segments@[j].metadata.key_range.0@,
            )
    }

    pub open spec fn wf(&self) -> bool {
        &&& self.config.levels >= 1
        &&& sorted(records(self.active_memtable@))
        &&& forall|i: int| 0 <= i < self.segments@.len() ==> (#[trigger] self.segments@[i]).wf()
        &&& forall|i: int|
            0 <= i < self.segments@.len() ==> (#[trigger] self.segments@[i]).level
                < self.config.levels
        &&& forall|i: int, j: int|
            0 <= i < j < self.segments@.len() ==> (#[trigger] self.segments@[i]).level
                <= (#[trigger] self.segments@[j]).level
        &&& self.levels_disjoint()
        &&& forall|r: Record| #[trigger] self.holds(r) ==> r.seqno < self.lsn && record_fits(r)
        &&& forall|i: int, j: int, a: Record, b: Record|
            0 <= i < j < self.ncomps() && #[trigger] self.comp(i).contains(a)
                && #[trigger] self.comp(j).contains(b) ==> a.seqno > b.seqno
    }
}

pub proof fn lemma_comp_sorted(t: &Tree, i: int)
    requires
        t.wf(),
        0 <= i < t.ncomps(),
    ensures
        sorted(t.comp(i)),
{
    if i > 0 {
        assert(t.segments@[i - 1].wf());
    }
}

/// The newest record of a key is unique.
pub proof fn lemma_latest_unique(t: &Tree, k: Seq<u8>, r1: Record, r2: Record)
    requires
        t.wf(),
        t.is_latest(k, r1),
        t.is_latest(k, r2),
    ensures
        r1 == r2,
{
    let i1 = choose|i: int| 0 <= i < t.ncomps() && #[trigger] t.comp(i).contains(r1);
    let i2 = choose|i: int| 0 <= i < t.ncomps() && #[trigger] t.comp(i).contains(r2);
    assert(t.holds(r1) && t.holds(r2));
    if i1 < i2 {
        assert(r1.seqno > r2.seqno);
    } else if i2 < i1 {
        assert(r2.seqno > r1.seqno);
    } else {
        let s = t.comp(i1);
        lemma_comp_sorted(t, i1);
        let x1 = choose|x: int| 0 <= x < s.len() && s[x] == r1;
        let x2 = choose|x: int| 0 <= x < s.len() && s[x] == r2;
        lemma_sorted_unique(s, x1, x2);
    }
}

/// The lookup of `k` is the latest record `r`.
pub proof fn lemma_lookup_is(t: &Tree, k: Seq<u8>, r: Record)
    requires
        t.wf(),
        t.is_latest(k, r),
    ensures
        t.lookup(k) == Some(r),
{
    let c = choose|c: Record| t.is_latest(k, c);
    lemma_latest_unique(t, k, r, c);
}

/// The newest record of the first component that holds `k` is the lookup of `k`.
pub proof fn lemma_first_hit(t: &Tree, c: int, k: Seq<u8>, r: Record)
    requires
        t.wf(),
        0 <= c < t.ncomps(),
        is_newest(t.comp(c), k, r),
        forall|d: int| 0 <= d < c ==> !has_key(#[trigger] t.comp(d), k),
    ensures
        t.lookup(k) == Some(r),
{
    assert(t.holds(r));
    assert forall|y: Record| #[trigger] t.holds(y) && y.key == k implies y.seqno <= r.seqno by {
        let d = choose|d: int| 0 <= d < t.ncomps() && #[trigger] t.comp(d).contains(y);
        let s = t.comp(d);
        let x = choose|x: int| 0 <= x < s.len() && s[x] == y;
        if d < c {
            assert(has_key(s, k));
        } else if d == c {
            assert(s[x].key == k);
        } else {
            assert(t.comp(c).contains(r));
        }
    }
    lemma_lookup_is(t, k, r);
}

/// A key that no component holds has no lookup.
pub proof fn lemma_absent(t: &Tree, k: Seq<u8>)
    requires
        forall|d: int| 0 <= d < t.ncomps() ==> !has_key(#[trigger] t.comp(d), k),
    ensures
        t.lookup(k).is_none(),
{
    if exists|r: Record| t.is_latest(k, r) {
        let r = choose|r: Record| t.is_latest(k, r);
        let d = choose|d: int| 0 <= d < t.ncomps() && #[trigger] t.comp(d).contains(r);
        let s = t.comp(d);
        let x = choose|x: int| 0 <= x < s.len() && s[x] == r;
        assert(has_key(s, k));
    }
}

impl Tree {
    /// The newest record of `key`; with `evict_tombstone`, a tombstone counts as absent.
    pub fn get_internal_entry(&self, key: &[u8], evict_tombstone: bool) -> (r: Option<Value>)
        requires
            self.wf(),
        ensures
            match self.lookup(key@) {
                Some(rec) => if evict_tombstone && rec.tombstone {
                    r.is_none()
                } else {
                    r.is_some() && r.unwrap()@ == rec
                },
                None => r.is_none(),
            },
    {
        let found = find_newest(&self.active_memtable, key);
        if let Some(item) = found {
            proof {
                lemma_first_hit(self, 0, key@, item@);
            }
            if evict_tombstone && item.is_tombstone {
                return None;
            }
            return Some(item);
        }
        let mut i: usize = 0;
        while i < self.segments.len()
            invariant
                self.wf(),
                0 <= i <= self.segments@.len(),
                forall|d: int| 0 <= d < i + 1 ==> !has_key(#[trigger] self.comp(d), key@),
            decreases self.segments@.len() - i,
        {
            assert(self.segments@[i as int].wf());
            let found = self.segments[i].get(key);
            assert(self.comp(i + 1) == self.segments@[i as int].view_items());
            if let Some(item) = found {
                proof {
                    lemma_first_hit(self, i + 1, key@, item@);
                }
                if evict_tombstone && item.is_tombstone {
                    return None;
                }
                return Some(item);
            }
            i = i + 1;
        }
        proof {
            lemma_absent(self, key@);
        }
        None
    }

    /// The value visible for `key`.
    pub fn get(&self, key: &[u8]) -> (r: Option<Vec<u8>>)
        requires
            self.wf(),
        ensures
            opt_bytes(r) == self.visible(key@),
            r.is_some() == self@.contains_key(key@),
            r.is_some() ==> self@[key@] == r.unwrap()@,
    {
        match self.get_internal_entry(key, true) {
            Some(item) => Some(item.value),
            None => None,
        }
    }

    /// Whether a value is visible for `key`.
    pub fn contains_key(&self, key: &[u8]) -> (r: bool)
        requires
            self.wf(),
        ensures
            r == self@.contains_key(key@),
    {
        self.get(key).is_some()
    }
}


/// Trees whose components hold the same records show the same mappings.
pub proof fn lemma_same_holds(t0: &Tree, t1: &Tree)
    requires
        t0.wf(),
        t1.wf(),
        forall|r: Record| t0.holds(r) == t1.holds(r),
    ensures
        forall|k: Seq<u8>| t0.lookup(k) == t1.lookup(k),
        t0@ == t1@,
{
    assert forall|k: Seq<u8>| t0.lookup(k) == t1.lookup(k) by {
        if exists|r: Record| t0.is_latest(k, r) {
            let r = choose|r: Record| t0.is_latest(k, r);
            assert(t1.is_latest(k, r));
            lemma_lookup_is(t1, k, r);
        } else if exists|r: Record| t1.is_latest(k, r) {
            let r = choose|r: Record| t1.is_latest(k, r);
            assert(t0.is_latest(k, r));
        }
    }
    assert(t0@ =~= t1@);
}

/// Adding a record newer than all others changes the mapping of its key alone.
pub proof fn lemma_write_view(t0: &Tree, t1: &Tree, rec: Record)
    requires
        t0.wf(),
        t1.wf(),
        rec.seqno == t0.lsn,
        forall|r: Record| t1.holds(r) == (t0.holds(r) || r == rec),
    ensures
        t1.lookup(rec.key) == Some(rec),
        t1@ == (if rec.tombstone {
            t0@.remove(rec.key)
        } else {
            t0@.insert(rec.key, rec.value)
        }),
{
    assert forall|k: Seq<u8>| #[trigger]
        t1.visible(k) == (if k == rec.key {
            if rec.tombstone {
                None
            } else {
                Some(rec.value)
            }
        } else {
            t0.visible(k)
        }) by {
        if k == rec.key {
            assert forall|y: Record| #[trigger] t1.holds(y) && y.key == k implies y.seqno
                <= rec.seqno by {
                if y != rec {
                    assert(t0.holds(y));
                }
            }
            assert(t1.is_latest(k, rec));
            lemma_lookup_is(t1, k, rec);
        } else {
            if exists|r: Record| t0.is_latest(k, r) {
                let r = choose|r: Record| t0.is_latest(k, r);
                assert(t1.is_latest(k, r));
                lemma_lookup_is(t1, k, r);
            } else if exists|r: Record| t1.is_latest(k, r) {
                let r = choose|r: Record| t1.is_latest(k, r);
                assert(t0.is_latest(k, r));
            }
        }
    }
    assert forall|y: Record| #[trigger] t1.holds(y) && y.key == rec.key implies y.seqno <= rec.seqno by {
        if y != rec {
            assert(t0.holds(y));
        }
    }
    lemma_lookup_is(t1, rec.key, rec);
    if rec.tombstone {
        assert(t1@ =~= t0@.remove(rec.key));
    } else {
        assert(t1@ =~= t0@.insert(rec.key, rec.value));
    }
}

/// Bytes that the journal spends on one record: length, checksum and the encoded record.
pub open spec fn journal_record_size(r: Record) -> int {
    23int + r.key.len() + r.value.len()
}

/// Journal bytes after writing `r` on top of `c`, saturated at `u32::MAX`.
pub open spec fn grown_journal_size(c: u32, r: Record) -> int {
    if c + journal_record_size(r) > u32::MAX {
        u32::MAX as int
    } else {
        c + journal_record_size(r)
    }
}

/// How a write of `r` changes the memtable: the journal grows by the
/// record; once it passes the configured size the memtable, now holding one
/// more record, becomes the newest level-0 segment and an empty one starts.
pub open spec fn write_accounting(t0: Tree, t1: Tree, r: Record) -> bool {
    let c = grown_journal_size(t0.active_journal_size_bytes, r);
    if c > t0.config.max_memtable_size {
        &&& t1.active_memtable@.len() == 0
        &&& t1.active_journal_size_bytes == 0
        &&& t1.segments@.len() == t0.segments@.len() + 1
        &&& t1.segments@[0].level == 0
        &&& t1.segments@[0].items@.len() == t0.active_memtable@.len() + 1
        &&& t1.segments@.subrange(1, t1.segments@.len() as int) == t0.segments@
    } else {
        &&& t1.active_journal_size_bytes == c
        &&& t1.active_memtable@.len() == t0.active_memtable@.len() + 1
        &&& t1.segments@ == t0.segments@
    }
}

impl Tree {
    /// An empty tree.
    pub fn open(config: Config) -> (r: Tree)
        requires
            config.levels >= 1,
        ensures
            r.wf(),
            r@ == Map::<Seq<u8>, Seq<u8>>::empty(),
            r.lsn == 0,
            r.segments@.len() == 0,
    {
        let t = Tree {
            config,
            lsn: 0,
            active_memtable: Vec::new(),
            active_journal_size_bytes: 0,
            segments: Vec::new(),
            next_segment_id: 0,
        };
        assert forall|r: Record| !t.holds(r) by {
            if t.holds(r) {
                let i = choose|i: int| 0 <= i < t.ncomps() && #[trigger] t.comp(i).contains(r);
                assert(t.comp(0).len() == 0);
            }
        }
        assert forall|k: Seq<u8>| !t@.contains_key(k) by {
            if exists|r: Record| t.is_latest(k, r) {
                let r = choose|r: Record| t.is_latest(k, r);
            }
        }
        assert(t@ =~= Map::<Seq<u8>, Seq<u8>>::empty());
        t
    }

    /// Turns the active memtable into a level-0 segment and starts an empty one.
    pub fn wait_for_memtable_flush(&mut self)
        requires
            old(self).wf(),
        ensures
            final(self).wf(),
            final(self)@ == old(self)@,
            final(self).lsn == old(self).lsn,
            final(self).config == old(self).config,
            final(self).active_memtable@.len() == 0,
            forall|k: Seq<u8>| #[trigger] final(self).lookup(k) == old(self).lookup(k),
            old(self).active_memtable@.len() == 0 ==> *final(self) == *old(self),
            old(self).active_memtable@.len() > 0 ==> final(self).active_journal_size_bytes == 0
                && final(self).segments@[0].level == 0,
            final(self).segments@.len() == old(self).segments@.len() + if old(
                self,
            ).active_memtable@.len() > 0 {
                1int
            } else {
                0int
            },
            old(self).active_memtable@.len() > 0 ==> final(self).segments@[0].view_items()
                == old(self).comp(0) && final(self).segments@.subrange(1, final(self).segments@.len() as int)
                == old(self).segments@,
    {
        if self.active_memtable.len() == 0 {
            return;
        }
        let ghost t0 = *self;
        let items = self.active_memtable.split_off(0);
        assert(items@ =~= t0.active_memtable@);
        assert forall|i: int| 0 <= i < items@.len() implies record_fits((#[trigger] items@[i])@) by {
            assert(t0.comp(0)[i] == items@[i]@);
            assert(t0.comp(0).contains(items@[i]@));
            assert(t0.holds(items@[i]@));
        }
        let seg = Segment::new(self.next_segment_id, 0, items);
        self.segments.insert(0, seg);
        self.next_segment_id = self.next_segment_id.saturating_add(1);
        self.active_journal_size_bytes = 0;
        proof {
            let t1 = *self;
            assert(t1.segments@.subrange(1, t1.segments@.len() as int) =~= t0.segments@);
            assert(t1.comp(0) =~= Seq::<Record>::empty());
            assert forall|j: int| 0 <= j < t0.ncomps() implies #[trigger] t1.comp(j + 1) == t0.comp(
                j,
            ) by {
                if j > 0 {
                    assert(t1.segments@[j] == t0.segments@[j - 1]);
                }
            }
            assert forall|r: Record| t0.holds(r) == t1.holds(r) by {
                if t0.holds(r) {
                    let i = choose|i: int| 0 <= i < t0.ncomps() && #[trigger] t0.comp(i).contains(r);
                    assert(t1.comp(i + 1).contains(r));
                }
                if t1.holds(r) {
                    let i = choose|i: int| 0 <= i < t1.ncomps() && #[trigger] t1.comp(i).contains(r);
                    assert(i > 0);
                    assert(t0.comp(i - 1).contains(r));
                }
            }
            assert forall|i: int| 0 <= i < t1.segments@.len() implies (#[trigger] t1.segments@[i]).wf()
                && t1.segments@[i].level < t1.config.levels by {
                if i > 0 {
                    assert(t1.segments@[i] == t0.segments@[i - 1]);
                }
            }
            assert forall|i: int, j: int|
                0 <= i < j < t1.segments@.len() implies (#[trigger] t1.segments@[i]).level
                <= (#[trigger] t1.segments@[j]).level by {
                assert(t1.segments@[j] == t0.segments@[j - 1]);
                if i > 0 {
                    assert(t1.segments@[i] == t0.segments@[i - 1]);
                }
            }
            assert forall|i: int, j: int|
                0 <= i < j < t1.segments@.len() && (#[trigger] t1.segments@[i]).level >= 1
                    && t1.segments@[i].level == (#[trigger] t1.segments@[j]).level implies key_lt(
                t1.segments@[i].metadata.key_range.1@,
                t1.segments@[j].metadata.key_range.0@,
            ) by {
                assert(t1.segments@[j] == t0.segments@[j - 1]);
                assert(t1.segments@[i] == t0.segments@[i - 1]);
            }
            assert forall|i: int, j: int, a: Record, b: Record|
                0 <= i < j < t1.ncomps() && #[trigger] t1.comp(i).contains(a)
                    && #[trigger] t1.comp(j).contains(b) implies a.seqno > b.seqno by {
                assert(t0.comp(i - 1).contains(a));
                assert(t0.comp(j - 1).contains(b));
            }
            lemma_same_holds(&t0, &t1);
        }
    }
}


impl Tree {
    /// Records a write under the next sequence number; flushes the memtable
    /// once its journal grows past the configured size.
    fn append_entry(&mut self, key: Vec<u8>, value: Vec<u8>, is_tombstone: bool)
        requires
            old(self).wf(),
            old(self).lsn < u64::MAX,
            key@.len() <= MAX_KEY_LEN,
            value@.len() <= MAX_VALUE_LEN,
        ensures
            final(self).wf(),
            final(self).lsn == old(self).lsn + 1,
            final(self).config == old(self).config,
            final(self)@ == if is_tombstone {
                old(self)@.remove(key@)
            } else {
                old(self)@.insert(key@, value@)
            },
            final(self).lookup(key@) == Some(
                Record { key: key@, value: value@, seqno: old(self).lsn, tombstone: is_tombstone },
            ),
            write_accounting(
                *old(self),
                *final(self),
                Record { key: key@, value: value@, seqno: old(self).lsn, tombstone: is_tombstone },
            ),
    {
        let ghost t0 = *self;
        let seqno = self.lsn;
        let size: u64 = 23u64 + key.len() as u64 + value.len() as u64;
        let size32: u32 = if size > u32::MAX as u64 {
            u32::MAX
        } else {
            size as u32
        };
        let v = Value::new(key, value, is_tombstone, seqno);
        let ghost rec = v@;
        insert_sorted(&mut self.active_memtable, v);
        self.lsn = seqno + 1;
        self.active_journal_size_bytes = self.active_journal_size_bytes.saturating_add(size32);
        proof {
            let t1 = *self;
            let s0 = t0.comp(0);
            assert forall|r: Record| t1.comp(0).contains(r) == (r == rec || s0.contains(r)) by {
                if s0.contains(r) && r.key == rec.key && r.seqno == rec.seqno {
                    assert(t0.holds(r));
                }
            }
            assert forall|j: int| 0 < j < t1.ncomps() implies #[trigger] t1.comp(j) == t0.comp(j) by {}
            assert forall|r: Record| t1.holds(r) == (t0.holds(r) || r == rec) by {
                if t1.holds(r) {
                    let i = choose|i: int| 0 <= i < t1.ncomps() && #[trigger] t1.comp(i).contains(r);
                    if r != rec {
                        assert(t0.comp(i).contains(r));
                    }
                }
                if r == rec {
                    assert(t1.comp(0).contains(r));
                } else if t0.holds(r) {
                    let i = choose|i: int| 0 <= i < t0.ncomps() && #[trigger] t0.comp(i).contains(r);
                    assert(t1.comp(i).contains(r));
                }
            }
            assert forall|i: int, j: int, a: Record, b: Record|
                0 <= i < j < t1.ncomps() && #[trigger] t1.comp(i).contains(a)
                    && #[trigger] t1.comp(j).contains(b) implies a.seqno > b.seqno by {
                assert(t0.comp(j).contains(b));
                assert(t0.holds(b));
                if a != rec {
                    assert(t0.comp(i).contains(a));
                }
            }
            assert forall|r: Record| #[trigger] t1.holds(r) implies r.seqno < t1.lsn && record_fits(r) by {
                if r != rec {
                    assert(t0.holds(r));
                }
            }
            assert(t1.wf());
            lemma_write_view(&t0, &t1, rec);
            assert(t1.comp(0).contains(rec));
            assert(t1.active_memtable@.len() == t0.active_memtable@.len() + 1) by {
                if exists|j: int| 0 <= j < t0.active_memtable@.len() && (#[trigger] t0.active_memtable@[j]).key@ == rec.key
                    && t0.active_memtable@[j].seqno == rec.seqno {
                    let j = choose|j: int| 0 <= j < t0.active_memtable@.len() && (#[trigger] t0.active_memtable@[j]).key@ == rec.key
                        && t0.active_memtable@[j].seqno == rec.seqno;
                    assert(t0.comp(0)[j] == t0.active_memtable@[j]@);
                    assert(t0.comp(0).contains(t0.active_memtable@[j]@));
                    assert(t0.holds(t0.active_memtable@[j]@));
                }
            }
        }
        if self.active_journal_size_bytes > self.config.max_memtable_size {
            self.wait_for_memtable_flush();
        }
    }

    /// Writes `value` under `key`.
    pub fn insert(&mut self, key: Vec<u8>, value: Vec<u8>) -> (r: Result<(), Error>)
        requires
            old(self).wf(),
            old(self).lsn < u64::MAX,
        ensures
            final(self).wf(),
            final(self).config == old(self).config,
            r.is_err() == (key@.len() > MAX_KEY_LEN || value@.len() > MAX_VALUE_LEN),
            r.is_err() ==> r == Err::<(), Error>(Error::Serialize) && final(self)@ == old(self)@
                && final(self).lsn == old(self).lsn,
            r.is_ok() ==> final(self)@ == old(self)@.insert(key@, value@) && final(self).lsn == old(
                self,
            ).lsn + 1,
            r.is_ok() ==> final(self).lookup(key@) == Some(
                Record { key: key@, value: value@, seqno: old(self).lsn, tombstone: false },
            ),
            r.is_ok() ==> write_accounting(
                *old(self),
                *final(self),
                Record { key: key@, value: value@, seqno: old(self).lsn, tombstone: false },
            ),
            r.is_err() ==> *final(self) == *old(self),
    {
        if key.len() > MAX_KEY_LEN || value.len() > MAX_VALUE_LEN {
            return Err(Error::Serialize);
        }
        self.append_entry(key, value, false);
        Ok(())
    }

    /// Deletes `key` by writing a tombstone.
    pub fn remove(&mut self, key: Vec<u8>) -> (r: Result<(), Error>)
        requires
            old(self).wf(),
            old(self).lsn < u64::MAX,
        ensures
            final(self).wf(),
            final(self).config == old(self).config,
            r.is_err() == (key@.len() > MAX_KEY_LEN),
            r.is_err() ==> r == Err::<(), Error>(Error::Serialize) && final(self)@ == old(self)@
                && final(self).lsn == old(self).lsn,
            r.is_ok() ==> final(self)@ == old(self)@.remove(key@) && final(self).lsn == old(self).lsn
                + 1,
            r.is_ok() ==> final(self).lookup(key@) == Some(
                Record { key: key@, value: Seq::empty(), seqno: old(self).lsn, tombstone: true },
            ),
            r.is_ok() ==> write_accounting(
                *old(self),
                *final(self),
                Record { key: key@, value: Seq::empty(), seqno: old(self).lsn, tombstone: true },
            ),
            r.is_err() ==> *final(self) == *old(self),
    {
        if key.len() > MAX_KEY_LEN {
            return Err(Error::Serialize);
        }
        let empty: Vec<u8> = Vec::new();
        assert(empty@ =~= Seq::<u8>::empty());
        self.append_entry(key, empty, true);
        Ok(())
    }

    /// Deletes `key` and returns the value it had.
    pub fn remove_entry(&mut self, key: &[u8]) -> (r: Result<Option<Vec<u8>>, Error>)
        requires
            old(self).wf(),
            old(self).lsn < u64::MAX,
        ensures
            final(self).wf(),
            final(self).config == old(self).config,
            r.is_err() == (old(self)@.contains_key(key@) && key@.len() > MAX_KEY_LEN),
            r.is_ok() ==> opt_bytes(r.unwrap()) == old(self).visible(key@) && final(self)@ == old(
                self,
            )@.remove(key@),
            r.is_err() ==> final(self)@ == old(self)@,
            final(self).lsn <= old(self).lsn + 1,
    {
        match self.get(key) {
            Some(item) => {
                let k = crate::codec::copy_range(key, 0, key.len());
                assert(k@ =~= key@);
                match self.remove(k) {
                    Ok(()) => Ok(Some(item)),
                    Err(e) => Err(e),
                }
            },
            None => {
                assert(old(self)@.remove(key@) =~= old(self)@);
                Ok(None)
            },
        }
    }

    /// Writes `next` (or deletes, for `None`) if the visible value of `key` is
    /// `expected` (`None`: absent); otherwise reports the value found.
    pub fn compare_and_swap(
        &mut self,
        key: &[u8],
        expected: Option<&Vec<u8>>,
        next: Option<&Vec<u8>>,
    ) -> (r: Result<CompareAndSwapResult, Error>)
        requires
            old(self).wf(),
            old(self).lsn < u64::MAX,
        ensures
            final(self).wf(),
            final(self).config == old(self).config,
            final(self).lsn <= old(self).lsn + 1,
            ({
                let cur = old(self).visible(key@);
                let exp = match expected {
                    Some(e) => Some(e@),
                    None => None,
                };
                let nxt = match next {
                    Some(n) => Some(n@),
                    None => None,
                };
                let fits = key@.len() <= MAX_KEY_LEN && match next {
                    Some(n) => n@.len() <= MAX_VALUE_LEN,
                    None => true,
                };
                &&& (cur == exp && !fits) <==> r.is_err()
                &&& r.is_err() ==> r == Err::<CompareAndSwapResult, Error>(Error::Serialize)
                    && final(self)@ == old(self)@
                &&& cur != exp ==> *final(self) == *old(self)
                &&& cur == exp && fits ==> final(self).lsn == old(self).lsn + 1
                &&& cur != exp ==> r.is_ok() && r.unwrap().is_err() && opt_bytes(
                    r.unwrap().unwrap_err().prev,
                ) == cur && opt_bytes(r.unwrap().unwrap_err().next) == nxt && final(self)@ == old(
                    self,
                )@
                &&& cur == exp && fits ==> r == Ok::<CompareAndSwapResult, Error>(Ok(()))
                    && final(self)@ == match nxt {
                    Some(n) => old(self)@.insert(key@, n),
                    None => old(self)@.remove(key@),
                }
            }),
    {
        let current = self.get(key);
        let next_copy: Option<Vec<u8>> = match next {
            Some(n) => {
                let c = crate::codec::copy_range(n.as_slice(), 0, n.len());
                assert(c@ =~= n@);
                Some(c)
            },
            None => None,
        };
        let matches_expected = match (&current, expected) {
            (Some(c), Some(e)) => matches!(
                crate::order::compare_keys(c.as_slice(), e.as_slice()),
                core::cmp::Ordering::Equal
            ),
            (None, None) => true,
            _ => false,
        };
        if !matches_expected {
            return Ok(Err(CompareAndSwapError { prev: current, next: next_copy }));
        }
        let k = crate::codec::copy_range(key, 0, key.len());
        assert(k@ =~= key@);
        match next_copy {
            Some(n) => match self.insert(k, n) {
                Ok(()) => Ok(Ok(())),
                Err(e) => Err(e),
            },
            None => match self.remove(k) {
                Ok(()) => Ok(Ok(())),
                Err(e) => Err(e),
            },
        }
    }
}


impl Tree {
    /// Adds to `out` every visible key that a record of `items` holds.
    fn absorb(&self, out: &mut Vec<KvPair>, items: &Vec<Value>)
        requires
            self.wf(),
            keys_ascending(old(out)@),
            pairs_of(self@, old(out)@),
        ensures
            keys_ascending(final(out)@),
            pairs_of(self@, final(out)@),
            forall|k: Seq<u8>| lists_key(old(out)@, k) ==> lists_key(final(out)@, k),
            forall|j: int|
                0 <= j < items@.len() && self@.contains_key((#[trigger] items@[j]).key@)
                    ==> lists_key(final(out)@, items@[j].key@),
    {
        let mut i: usize = 0;
        let ghost o_start = out@;
        while i < items.len()
            invariant
                self.wf(),
                0 <= i <= items@.len(),
                keys_ascending(out@),
                pairs_of(self@, out@),
                forall|k: Seq<u8>| lists_key(o_start, k) ==> lists_key(out@, k),
                forall|j: int|
                    0 <= j < i && self@.contains_key((#[trigger] items@[j]).key@) ==> lists_key(
                        out@,
                        items@[j].key@,
                    ),
            decreases items@.len() - i,
        {
            let key = items[i].key.as_slice();
            if let Some(v) = self.get(key) {
                let pos = crate::scan::pair_lower_bound(out, key);
                let present = pos < out.len() && matches!(
                    crate::order::compare_keys(out[pos].0.as_slice(), key),
                    core::cmp::Ordering::Equal
                );
                if !present {
                    let ghost o0 = out@;
                    assert(!lists_key(o0, key@)) by {
                        if lists_key(o0, key@) {
                            let j = choose|j: int| 0 <= j < o0.len() && (#[trigger] o0[j]).0@ == key@;
                            if j < pos {
                                crate::order::lemma_key_lt_irrefl(key@);
                            } else if j > pos {
                                crate::order::lemma_key_lt_asym(o0[pos as int].0@, o0[j].0@);
                                crate::order::lemma_key_total(o0[pos as int].0@, key@);
                            }
                        }
                    }
                    let k = crate::codec::copy_range(key, 0, key.len());
                    assert(k@ =~= key@);
                    let ghost pair = (k, v);
                    insert_pair(out, (k, v));
                    assert forall|a: int| 0 <= a < out@.len() implies self@.contains_key(
                        (#[trigger] out@[a]).0@,
                    ) && self@[out@[a].0@] == out@[a].1@ by {
                        assert(out@.contains(out@[a]));
                        if out@[a] != pair {
                            let b = choose|b: int| 0 <= b < o0.len() && o0[b] == out@[a];
                        }
                    }
                }
            }
            i = i + 1;
        }
    }

    /// Every visible mapping, in key order.
    fn collect_visible(&self) -> (r: Vec<KvPair>)
        requires
            self.wf(),
        ensures
            is_scan(self@, everything(), r@),
    {
        let mut out: Vec<KvPair> = Vec::new();
        self.absorb(&mut out, &self.active_memtable);
        let mut i: usize = 0;
        while i < self.segments.len()
            invariant
                self.wf(),
                0 <= i <= self.segments@.len(),
                keys_ascending(out@),
                pairs_of(self@, out@),
                forall|c: int, r: Record|
                    0 <= c < i + 1 && #[trigger] self.comp(c).contains(r) && self@.contains_key(r.key)
                        ==> lists_key(out@, r.key),
            decreases self.segments@.len() - i,
        {
            let ghost o0 = out@;
            self.absorb(&mut out, &self.segments[i].items);
            proof {
                assert forall|c: int, r: Record|
                    0 <= c < i + 2 && #[trigger] self.comp(c).contains(r) && self@.contains_key(r.key)
                        implies lists_key(out@, r.key) by {
                    if c == i + 1 {
                        let s = self.comp(c);
                        let j = choose|j: int| 0 <= j < s.len() && s[j] == r;
                        assert(self.segments@[i as int].items@[j]@ == r);
                    } else {
                        assert(lists_key(o0, r.key));
                    }
                }
            }
            i = i + 1;
        }
        proof {
            assert forall|k: Seq<u8>| self@.contains_key(k) && crate::scan::selects(everything(), k)
                implies lists_key(out@, k) by {
                let r = choose|r: Record| self.is_latest(k, r);
                let c = choose|c: int| 0 <= c < self.ncomps() && #[trigger] self.comp(c).contains(r);
                if c == 0 {
                    let s = self.comp(0);
                    let j = choose|j: int| 0 <= j < s.len() && s[j] == r;
                    assert(self.active_memtable@[j]@ == r);
                }
            }
        }
        out
    }

    /// The visible mappings with keys between `lo` and `hi`, in key order.
    pub fn range(&self, lo: KeyBound, hi: KeyBound) -> (r: Vec<KvPair>)
        requires
            self.wf(),
        ensures
            is_scan(self@, KeyFilter::Range(lo, hi), r@),
    {
        let all = self.collect_visible();
        select(all, &KeyFilter::Range(lo, hi), Ghost(self@))
    }

    /// The visible mappings whose key starts with `prefix`, in key order.
    pub fn prefix(&self, prefix: Vec<u8>) -> (r: Vec<KvPair>)
        requires
            self.wf(),
        ensures
            is_scan(self@, KeyFilter::Prefix(prefix), r@),
    {
        let all = self.collect_visible();
        select(all, &KeyFilter::Prefix(prefix), Ghost(self@))
    }

    /// Every visible mapping, in key order.
    pub fn iter(&self) -> (r: Vec<KvPair>)
        requires
            self.wf(),
        ensures
            is_scan(self@, everything(), r@),
    {
        self.collect_visible()
    }

    /// The visible mapping with the smallest key.
    pub fn first_key_value(&self) -> (r: Option<KvPair>)
        requires
            self.wf(),
        ensures
            r.is_none() == (self@.dom() == Set::<Seq<u8>>::empty()),
            r.is_some() ==> self@.contains_key(r.unwrap().0@) && self@[r.unwrap().0@]
                == r.unwrap().1@ && forall|k: Seq<u8>|
                #[trigger] self@.contains_key(k) ==> crate::order::key_le(r.unwrap().0@, k),
    {
        let mut all = self.collect_visible();
        if all.len() == 0 {
            assert(self@.dom() =~= Set::<Seq<u8>>::empty()) by {
                assert forall|k: Seq<u8>| !self@.contains_key(k) by {
                    if self@.contains_key(k) {
                        assert(crate::scan::selects(everything(), k));
                        assert(lists_key(all@, k));
                    }
                }
            }
            None
        } else {
            let ghost s = all@;
            let first = all.remove(0);
            assert(s[0] == first);
            assert forall|k: Seq<u8>| #[trigger] self@.contains_key(k) implies crate::order::key_le(
                first.0@,
                k,
            ) by {
                assert(crate::scan::selects(everything(), k));
                let j = choose|j: int| 0 <= j < s.len() && (#[trigger] s[j]).0@ == k;
                if j > 0 {
                    assert(key_lt(s[0].0@, s[j].0@));
                }
            }
            assert(self@.contains_key(first.0@));
            Some(first)
        }
    }

    /// The visible mapping with the greatest key.
    pub fn last_key_value(&self) -> (r: Option<KvPair>)
        requires
            self.wf(),
        ensures
            r.is_none() == (self@.dom() == Set::<Seq<u8>>::empty()),
            r.is_some() ==> self@.contains_key(r.unwrap().0@) && self@[r.unwrap().0@]
                == r.unwrap().1@ && forall|k: Seq<u8>|
                #[trigger] self@.contains_key(k) ==> crate::order::key_le(k, r.unwrap().0@),
    {
        let mut all = self.collect_visible();
        let ghost s = all@;
        match all.pop() {
            None => {
                assert(self@.dom() =~= Set::<Seq<u8>>::empty()) by {
                    assert forall|k: Seq<u8>| !self@.contains_key(k) by {
                        if self@.contains_key(k) {
                            assert(crate::scan::selects(everything(), k));
                            assert(lists_key(s, k));
                        }
                    }
                }
                None
            },
            Some(last) => {
                assert forall|k: Seq<u8>| #[trigger] self@.contains_key(k) implies crate::order::key_le(
                    k,
                    last.0@,
                ) by {
                    assert(crate::scan::selects(everything(), k));
                    let j = choose|j: int| 0 <= j < s.len() && (#[trigger] s[j]).0@ == k;
                    if j < s.len() - 1 {
                        assert(key_lt(s[j].0@, s[s.len() - 1].0@));
                    }
                }
                assert(s[s.len() - 1] == last);
                assert(self@.contains_key(last.0@));
                Some(last)
            },
        }
    }

    /// Number of visible mappings; scans the whole tree.
    pub fn len(&self) -> (r: usize)
        requires
            self.wf(),
        ensures
            self@.dom().finite(),
            r == self@.dom().len(),
    {
        let all = self.collect_visible();
        let ghost keys = all@.map_values(|p: KvPair| p.0@);
        proof {
            assert forall|i: int, j: int| 0 <= i < j < keys.len() implies keys[i] != keys[j] by {
                crate::order::lemma_key_lt_asym(all@[i].0@, all@[j].0@);
            }
            assert(keys.no_duplicates());
            keys.unique_seq_to_set();
            assert forall|k: Seq<u8>| self@.dom().contains(k) <==> keys.to_set().contains(k) by {
                if self@.contains_key(k) {
                    assert(crate::scan::selects(everything(), k));
                    let j = choose|j: int| 0 <= j < all@.len() && (#[trigger] all@[j]).0@ == k;
                    assert(keys[j] == k);
                }
                if keys.to_set().contains(k) {
                    let j = choose|j: int| 0 <= j < keys.len() && keys[j] == k;
                    assert(all@[j].0@ == k);
                }
            }
            assert(self@.dom() =~= keys.to_set());
        }
        all.len()
    }

    /// Whether no mapping is visible.
    pub fn is_empty(&self) -> (r: bool)
        requires
            self.wf(),
        ensures
            r == (self@.dom() == Set::<Seq<u8>>::empty()),
    {
        self.first_key_value().is_none()
    }
}


impl Tree {
    /// `r` is held by a segment.
    pub open spec fn seg_holds(&self, r: Record) -> bool {
        exists|i: int| 1 <= i < self.ncomps() && #[trigger] self.comp(i).contains(r)
    }

    /// `r` is the record of `k` with the greatest sequence number among the segments.
    pub open spec fn is_seg_latest(&self, k: Seq<u8>, r: Record) -> bool {
        &&& self.seg_holds(r)
        &&& r.key == k
        &&& forall|y: Record| #[trigger] self.seg_holds(y) && y.key == k ==> y.seqno <= r.seqno
    }
}

/// Two records of a tree with the same key and sequence number are one.
pub proof fn lemma_held_unique(t: &Tree, a: Record, b: Record)
    requires
        t.wf(),
        t.holds(a),
        t.holds(b),
        a.key == b.key,
        a.seqno == b.seqno,
    ensures
        a == b,
{
    let i1 = choose|i: int| 0 <= i < t.ncomps() && #[trigger] t.comp(i).contains(a);
    let i2 = choose|i: int| 0 <= i < t.ncomps() && #[trigger] t.comp(i).contains(b);
    if i1 < i2 {
        assert(a.seqno > b.seqno);
    } else if i2 < i1 {
        assert(b.seqno > a.seqno);
    } else {
        let s = t.comp(i1);
        lemma_comp_sorted(t, i1);
        let x1 = choose|x: int| 0 <= x < s.len() && s[x] == a;
        let x2 = choose|x: int| 0 <= x < s.len() && s[x] == b;
        lemma_sorted_unique(s, x1, x2);
    }
}

impl Tree {
    /// The newest record of `key` among the segments.
    fn find_in_segments(&self, key: &[u8]) -> (r: Option<Value>)
        requires
            self.wf(),
        ensures
            r.is_some() ==> self.is_seg_latest(key@, r.unwrap()@),
            r.is_none() ==> forall|y: Record| #[trigger] self.seg_holds(y) ==> y.key != key@,
    {
        let mut i: usize = 0;
        while i < self.segments.len()
            invariant
                self.wf(),
                0 <= i <= self.segments@.len(),
                forall|d: int| 1 <= d < i + 1 ==> !has_key(#[trigger] self.comp(d), key@),
            decreases self.segments@.len() - i,
        {
            assert(self.segments@[i as int].wf());
            let found = self.segments[i].get(key);
            assert(self.comp(i + 1) == self.segments@[i as int].view_items());
            if let Some(item) = found {
                proof {
                    let c = i + 1;
                    let r = item@;
                    assert(self.comp(c).contains(r));
                    assert forall|y: Record| #[trigger] self.seg_holds(y) && y.key == key@ implies y.seqno
                        <= r.seqno by {
                        let d = choose|d: int| 1 <= d < self.ncomps() && #[trigger] self.comp(d).contains(y);
                        let s = self.comp(d);
                        let x = choose|x: int| 0 <= x < s.len() && s[x] == y;
                        if d < c {
                            assert(has_key(s, key@));
                        } else if d == c {
                            assert(s[x].key == key@);
                        }
                    }
                }
                return Some(item);
            }
            i = i + 1;
        }
        proof {
            assert forall|y: Record| #[trigger] self.seg_holds(y) implies y.key != key@ by {
                let d = choose|d: int| 1 <= d < self.ncomps() && #[trigger] self.comp(d).contains(y);
                let s = self.comp(d);
                let x = choose|x: int| 0 <= x < s.len() && s[x] == y;
                if y.key == key@ {
                    assert(has_key(s, key@));
                }
            }
        }
        None
    }

    /// Merges every segment into one segment of the last level, keeping for
    /// each key only its newest record and dropping tombstones.
    pub fn do_major_compaction(&mut self)
        requires
            old(self).wf(),
        ensures
            final(self).wf(),
            final(self)@ == old(self)@,
            final(self).lsn == old(self).lsn,
            final(self).config == old(self).config,
            final(self).active_memtable@ == old(self).active_memtable@,
            final(self).segments@.len() <= 1,
            forall|i: int|
                0 <= i < final(self).segments@.len() ==> (#[trigger] final(self).segments@[i]).level
                    == final(self).config.levels - 1,
            forall|r: Record| #[trigger] final(self).seg_holds(r) ==> !r.tombstone,
            forall|r: Record| #[trigger] final(self).seg_holds(r) ==> old(self).is_seg_latest(r.key, r),
    {
        let ghost t0 = *self;
        let mut out: Vec<Value> = Vec::new();
        let mut i: usize = 0;
        while i < self.segments.len()
            invariant
                *self == t0,
                self.wf(),
                0 <= i <= self.segments@.len(),
                sorted(records(out@)),
                forall|r: Record|
                    records(out@).contains(r) ==> self.is_seg_latest(r.key, r) && !r.tombstone,
                forall|c: int, r: Record|
                    1 <= c < i + 1 && #[trigger] self.comp(c).contains(r) && self.is_seg_latest(r.key, r)
                        && !r.tombstone ==> records(out@).contains(r),
            decreases self.segments@.len() - i,
        {
            let mut j: usize = 0;
            let ghost c = i + 1;
            assert(self.segments@[i as int].wf());
            while j < self.segments[i].items.len()
                invariant
                    *self == t0,
                    self.wf(),
                    0 <= i < self.segments@.len(),
                    c == i + 1,
                    0 <= j <= self.segments@[i as int].items@.len(),
                    sorted(records(out@)),
                    forall|r: Record|
                        records(out@).contains(r) ==> self.is_seg_latest(r.key, r) && !r.tombstone,
                    forall|cc: int, r: Record|
                        1 <= cc < c && #[trigger] self.comp(cc).contains(r) && self.is_seg_latest(r.key, r)
                            && !r.tombstone ==> records(out@).contains(r),
                    forall|jj: int|
                        0 <= jj < j && #[trigger] self.is_seg_latest(
                            self.segments@[i as int].items@[jj]@.key,
                            self.segments@[i as int].items@[jj]@,
                        ) && !self.segments@[i as int].items@[jj]@.tombstone ==> records(
                            out@,
                        ).contains(self.segments@[i as int].items@[jj]@),
                decreases self.segments@[i as int].items@.len() - j,
            {
                let x = &self.segments[i].items[j];
                let ghost xr = x@;
                proof {
                    assert(self.comp(c)[j as int] == xr);
                    assert(self.comp(c).contains(xr));
                    assert(self.seg_holds(xr));
                }
                let w = self.find_in_segments(x.key.as_slice());
                match w {
                    Some(w) => {
                        if w.seqno == x.seqno && !x.is_tombstone {
                            proof {
                                assert(self.holds(xr));
                                assert(self.holds(w@)) by {
                                    let d = choose|d: int|
                                        1 <= d < self.ncomps() && #[trigger] self.comp(d).contains(w@);
                                }
                                lemma_held_unique(self, xr, w@);
                            }
                            let ghost o0 = records(out@);
                            insert_sorted(&mut out, x.duplicate());
                            proof {
                                assert forall|r: Record| records(out@).contains(r) implies self.is_seg_latest(
                                    r.key,
                                    r,
                                ) && !r.tombstone by {
                                    if r != xr {
                                        assert(o0.contains(r));
                                    }
                                }
                                assert forall|r: Record| o0.contains(r) implies records(out@).contains(r) by {
                                    if r.key == xr.key && r.seqno == xr.seqno {
                                        assert(self.holds(r)) by {
                                            let d = choose|d: int|
                                                1 <= d < self.ncomps() && #[trigger] self.comp(d).contains(r);
                                        }
                                        lemma_held_unique(self, xr, r);
                                    }
                                }
                            }
                        } else {
                            proof {
                                if self.is_seg_latest(xr.key, xr) && !xr.tombstone {
                                    assert(w@.seqno <= xr.seqno);
                                    assert(xr.seqno <= w@.seqno);
                                }
                            }
                        }
                    },
                    None => {},
                }
                j = j + 1;
            }
            proof {
                assert forall|cc: int, r: Record|
                    1 <= cc < i + 2 && #[trigger] self.comp(cc).contains(r) && self.is_seg_latest(r.key, r)
                        && !r.tombstone implies records(out@).contains(r) by {
                    if cc == i + 1 {
                        let s = self.comp(cc);
                        let x = choose|x: int| 0 <= x < s.len() && s[x] == r;
                        assert(self.segments@[i as int].items@[x]@ == r);
                    }
                }
            }
            i = i + 1;
        }
        let ghost o = records(out@);
        assert forall|k: int| 0 <= k < out@.len() implies record_fits((#[trigger] out@[k])@) by {
            assert(o[k] == out@[k]@);
            assert(o.contains(o[k]));
            let d = choose|d: int| 1 <= d < self.ncomps() && #[trigger] self.comp(d).contains(o[k]);
            assert(self.holds(o[k]));
        }
        let mut segments: Vec<Segment> = Vec::new();
        if out.len() > 0 {
            let seg = Segment::new(self.next_segment_id, self.config.levels - 1, out);
            segments.push(seg);
            self.next_segment_id = self.next_segment_id.saturating_add(1);
        }
        self.segments = segments;
        proof {
            let t1 = *self;
            assert forall|r: Record| t0.seg_holds(r) && t0.is_seg_latest(r.key, r) && !r.tombstone
                implies o.contains(r) by {
                let d = choose|d: int| 1 <= d < t0.ncomps() && #[trigger] t0.comp(d).contains(r);
            }
            if t1.segments@.len() == 1 {
                assert(t1.segments@[0].view_items() == o);
            }
            lemma_compacted_wf(&t0, &t1, o);
            lemma_compacted_view(&t0, &t1, o);
        }
    }
}

/// Facts shared by the compaction lemmas.
pub open spec fn compacted(t0: &Tree, t1: &Tree, o: Seq<Record>) -> bool {
    &&& t0.wf()
    &&& t1.active_memtable@ == t0.active_memtable@
    &&& t1.lsn == t0.lsn
    &&& t1.config == t0.config
    &&& t1.segments@.len() <= 1
    &&& t1.segments@.len() == 1 ==> t1.segments@[0].view_items() == o && t1.segments@[0].wf()
        && t1.segments@[0].level == t1.config.levels - 1
    &&& t1.segments@.len() == 0 ==> o.len() == 0
    &&& forall|r: Record| o.contains(r) ==> t0.is_seg_latest(r.key, r) && !r.tombstone
    &&& forall|r: Record|
        t0.seg_holds(r) && t0.is_seg_latest(r.key, r) && !r.tombstone ==> o.contains(r)
}

proof fn lemma_compacted_holds(t0: &Tree, t1: &Tree, o: Seq<Record>)
    requires
        compacted(t0, t1, o),
    ensures
        forall|r: Record| #[trigger] t1.seg_holds(r) <==> o.contains(r),
        forall|r: Record| #[trigger] t1.holds(r) <==> (t0.comp(0).contains(r) || o.contains(r)),
        forall|r: Record| o.contains(r) ==> t0.holds(r) && t0.seg_holds(r),
        t1.comp(0) == t0.comp(0),
{
    assert(t1.comp(0) == t0.comp(0));
    assert forall|r: Record| #[trigger] t1.seg_holds(r) <==> o.contains(r) by {
        if t1.seg_holds(r) {
            let d = choose|d: int| 1 <= d < t1.ncomps() && #[trigger] t1.comp(d).contains(r);
            assert(d == 1);
        }
        if o.contains(r) {
            assert(t1.comp(1) == o);
        }
    }
    assert forall|r: Record| #[trigger] t1.holds(r) <==> (t0.comp(0).contains(r) || o.contains(r)) by {
        if t1.holds(r) {
            let d = choose|d: int| 0 <= d < t1.ncomps() && #[trigger] t1.comp(d).contains(r);
            if d >= 1 {
                assert(t1.seg_holds(r));
            }
        }
        if o.contains(r) {
            assert(t1.seg_holds(r));
            let d = choose|d: int| 1 <= d < t1.ncomps() && #[trigger] t1.comp(d).contains(r);
        }
        if t0.comp(0).contains(r) {
            assert(t1.comp(0).contains(r));
        }
    }
    assert forall|r: Record| o.contains(r) implies t0.holds(r) && t0.seg_holds(r) by {
        let d = choose|d: int| 1 <= d < t0.ncomps() && #[trigger] t0.comp(d).contains(r);
    }
}

proof fn lemma_compacted_wf(t0: &Tree, t1: &Tree, o: Seq<Record>)
    requires
        compacted(t0, t1, o),
    ensures
        t1.wf(),
{
    lemma_compacted_holds(t0, t1, o);
    assert forall|r: Record| #[trigger] t1.holds(r) implies r.seqno < t1.lsn && record_fits(r) by {
        if t0.comp(0).contains(r) {
            assert(t0.holds(r));
        }
    }
    assert forall|a: int, b: int, x: Record, y: Record|
        0 <= a < b < t1.ncomps() && #[trigger] t1.comp(a).contains(x)
            && #[trigger] t1.comp(b).contains(y) implies x.seqno > y.seqno by {
        assert(a == 0 && b == 1);
        assert(t1.seg_holds(y));
        let d = choose|d: int| 1 <= d < t0.ncomps() && #[trigger] t0.comp(d).contains(y);
        assert(t0.comp(0).contains(x));
    }
}

proof fn lemma_compacted_view(t0: &Tree, t1: &Tree, o: Seq<Record>)
    requires
        compacted(t0, t1, o),
        t1.wf(),
    ensures
        t1@ == t0@,
{
    lemma_compacted_holds(t0, t1, o);
    assert forall|k: Seq<u8>| #[trigger] t1.visible(k) == t0.visible(k) by {
        lemma_compacted_key(t0, t1, o, k);
    }
    assert(t1@ =~= t0@);
}

#[verifier::rlimit(50)]
proof fn lemma_compacted_key(t0: &Tree, t1: &Tree, o: Seq<Record>, k: Seq<u8>)
    requires
        compacted(t0, t1, o),
        t1.wf(),
        forall|r: Record| #[trigger] t1.seg_holds(r) <==> o.contains(r),
        forall|r: Record| #[trigger] t1.holds(r) <==> (t0.comp(0).contains(r) || o.contains(r)),
        forall|r: Record| o.contains(r) ==> t0.holds(r) && t0.seg_holds(r),
        t1.comp(0) == t0.comp(0),
    ensures
        t1.visible(k) == t0.visible(k),
{
    let s = t0.comp(0);
    if has_key(s, k) {
        lemma_newest_exists(s, k);
        let m = choose|m: Record| is_newest(s, k, m);
        lemma_first_hit(t0, 0, k, m);
        lemma_first_hit(t1, 0, k, m);
    } else {
        assert forall|y: Record| #[trigger] t1.holds(y) && y.key == k implies o.contains(y) by {
            if s.contains(y) {
                let x = choose|x: int| 0 <= x < s.len() && s[x] == y;
            }
        }
        if exists|w: Record| t0.is_seg_latest(k, w) {
            let w = choose|w: Record| t0.is_seg_latest(k, w);
            let dw = choose|d: int| 1 <= d < t0.ncomps() && #[trigger] t0.comp(d).contains(w);
            assert(t0.holds(w));
            assert forall|y: Record| #[trigger] t0.holds(y) && y.key == k implies y.seqno <= w.seqno by {
                let d = choose|d: int| 0 <= d < t0.ncomps() && #[trigger] t0.comp(d).contains(y);
                if d == 0 {
                    let x = choose|x: int| 0 <= x < s.len() && s[x] == y;
                } else {
                    assert(t0.seg_holds(y));
                }
            }
            assert(t0.is_latest(k, w));
            lemma_lookup_is(t0, k, w);
            if w.tombstone {
                if exists|r: Record| t1.is_latest(k, r) {
                    let r = choose|r: Record| t1.is_latest(k, r);
                    assert(o.contains(r));
                    assert(t0.is_seg_latest(k, r));
                    lemma_held_unique(t0, r, w);
                }
                lemma_absent_latest(t1, k);
            } else {
                assert(t0.seg_holds(w));
                assert(o.contains(w));
                assert(t1.holds(w));
                assert forall|y: Record| #[trigger] t1.holds(y) && y.key == k implies y.seqno
                    <= w.seqno by {
                    assert(o.contains(y));
                }
                lemma_lookup_is(t1, k, w);
            }
        } else {
            if exists|r: Record| t0.is_latest(k, r) {
                let r = choose|r: Record| t0.is_latest(k, r);
                let d = choose|d: int| 0 <= d < t0.ncomps() && #[trigger] t0.comp(d).contains(r);
                if d == 0 {
                    let x = choose|x: int| 0 <= x < s.len() && s[x] == r;
                } else {
                    assert(t0.seg_holds(r));
                    assert forall|y: Record| #[trigger] t0.seg_holds(y) && y.key == k implies y.seqno
                        <= r.seqno by {
                        let d2 = choose|d2: int| 1 <= d2 < t0.ncomps() && #[trigger] t0.comp(d2).contains(y);
                        assert(t0.holds(y));
                    }
                    assert(t0.is_seg_latest(k, r));
                }
            }
            if exists|r: Record| t1.is_latest(k, r) {
                let r = choose|r: Record| t1.is_latest(k, r);
                assert(o.contains(r));
            }
        }
    }
}

/// Without a latest record there is no lookup.
proof fn lemma_absent_latest(t: &Tree, k: Seq<u8>)
    requires
        !exists|r: Record| t.is_latest(k, r),
    ensures
        t.lookup(k).is_none(),
{
}

/// A run that holds a key has a newest record for it.
pub proof fn lemma_newest_exists(s: Seq<Record>, k: Seq<u8>)
    requires
        has_key(s, k),
    ensures
        exists|m: Record| is_newest(s, k, m),
    decreases s.len(),
{
    let x = choose|x: int| 0 <= x < s.len() && (#[trigger] s[x]).key == k;
    let rest = s.drop_last();
    let last = s[s.len() - 1];
    if has_key(rest, k) {
        lemma_newest_exists(rest, k);
        let m = choose|m: Record| is_newest(rest, k, m);
        let mi = choose|i: int| 0 <= i < rest.len() && rest[i] == m;
        assert(s[mi] == m);
        if last.key == k && last.seqno > m.seqno {
            assert(s[s.len() - 1] == last);
            assert forall|i: int| 0 <= i < s.len() && (#[trigger] s[i]).key == k implies s[i].seqno
                <= last.seqno by {
                if i < s.len() - 1 {
                    assert(rest[i] == s[i]);
                }
            }
            assert(is_newest(s, k, last));
        } else {
            assert forall|i: int| 0 <= i < s.len() && (#[trigger] s[i]).key == k implies s[i].seqno
                <= m.seqno by {
                if i < s.len() - 1 {
                    assert(rest[i] == s[i]);
                }
            }
            assert(is_newest(s, k, m));
        }
    } else {
        assert(x == s.len() - 1) by {
            if x < s.len() - 1 {
                assert(rest[x].key == k);
            }
        }
        assert forall|i: int| 0 <= i < s.len() && (#[trigger] s[i]).key == k implies s[i].seqno
            <= last.seqno by {
            if i < s.len() - 1 {
                assert(rest[i].key == k);
            }
        }
        assert(is_newest(s, k, last));
    }
}


/// A key's visible value is that of its record with the greatest sequence
/// number; a key whose newest record is a tombstone has none.
pub proof fn lemma_get_returns_newest(t: &Tree, k: Seq<u8>, r: Record)
    requires
        t.wf(),
        t.holds(r),
        r.key == k,
        forall|y: Record| #[trigger] t.holds(y) && y.key == k ==> y.seqno <= r.seqno,
    ensures
        t@.contains_key(k) == !r.tombstone,
        !r.tombstone ==> t@[k] == r.value,
{
    lemma_lookup_is(t, k, r);
}

/// A key that no record holds has no visible value.
pub proof fn lemma_get_unwritten(t: &Tree, k: Seq<u8>)
    requires
        t.wf(),
        forall|y: Record| #[trigger] t.holds(y) ==> y.key != k,
    ensures
        !t@.contains_key(k),
{
}

/// Within a level below level 0, every key of an earlier segment is below
/// every key of a later one: key ranges are disjoint and ascending.
pub proof fn lemma_levels_disjoint(t: &Tree, i: int, j: int, a: int, b: int)
    requires
        t.wf(),
        0 <= i < j < t.segments@.len(),
        t.segments@[i].level >= 1,
        t.segments@[i].level == t.segments@[j].level,
        0 <= a < t.segments@[i].items@.len(),
        0 <= b < t.segments@[j].items@.len(),
    ensures
        key_lt(t.segments@[i].items@[a].key@, t.segments@[j].items@[b].key@),
{
    let gi = t.segments@[i];
    let gj = t.segments@[j];
    assert(gi.wf() && gj.wf());
    crate::segment::lemma_segment_key_range(gi, a);
    crate::segment::lemma_segment_key_range(gj, b);
    crate::order::lemma_key_le_lt_trans(
        gi.items@[a].key@,
        gi.metadata.key_range.1@,
        gj.metadata.key_range.0@,
    );
    crate::order::lemma_key_lt_le_trans(
        gi.items@[a].key@,
        gj.metadata.key_range.0@,
        gj.items@[b].key@,
    );
}

/// Writing a key, deleting it and writing it again shows only the last value.
pub proof fn lemma_insert_remove_insert(
    m: Map<Seq<u8>, Seq<u8>>,
    k: Seq<u8>,
    v1: Seq<u8>,
    v2: Seq<u8>,
)
    ensures
        m.insert(k, v1).remove(k).insert(k, v2) == m.insert(k, v2),
        m.insert(k, v1).remove(k).insert(k, v2)[k] == v2,
{
    assert(m.insert(k, v1).remove(k).insert(k, v2) =~= m.insert(k, v2));
}

/// A write of a batch: a value, or `None` for a deletion.
pub type BatchItem = (Vec<u8>, Option<Vec<u8>>);

/// The mappings after applying the writes of `ops` in order.
pub open spec fn apply_batch(m: Map<Seq<u8>, Seq<u8>>, ops: Seq<BatchItem>) -> Map<Seq<u8>, Seq<u8>>
    decreases ops.len(),
{
    if ops.len() == 0 {
        m
    } else {
        let last = ops.last();
        let before = apply_batch(m, ops.drop_last());
        match last.1 {
            Some(v) => before.insert(last.0@, v@),
            None => before.remove(last.0@),
        }
    }
}

pub open spec fn item_fits(op: BatchItem) -> bool {
    op.0@.len() <= MAX_KEY_LEN && match op.1 {
        Some(v) => v@.len() <= MAX_VALUE_LEN,
        None => true,
    }
}

/// Writes applied together: all of them or none.
pub struct Batch {
    pub items: Vec<BatchItem>,
}

impl Batch {
    pub fn new() -> (r: Batch)
        ensures
            r.items@.len() == 0,
    {
        Batch { items: Vec::new() }
    }

    pub fn insert(&mut self, key: Vec<u8>, value: Vec<u8>)
        ensures
            final(self).items@ == old(self).items@.push((key, Some(value))),
    {
        self.items.push((key, Some(value)));
    }

    pub fn remove(&mut self, key: Vec<u8>)
        ensures
            final(self).items@ == old(self).items@.push((key, None)),
    {
        self.items.push((key, None));
    }

    /// Applies every write to `tree` under consecutive sequence numbers, or
    /// none of them where one is too long.
    pub fn commit(self, tree: &mut Tree) -> (r: Result<(), Error>)
        requires
            old(tree).wf(),
            old(tree).lsn + self.items@.len() < u64::MAX,
        ensures
            final(tree).wf(),
            final(tree).config == old(tree).config,
            r.is_ok() == forall|i: int| 0 <= i < self.items@.len() ==> item_fits(#[trigger] self.items@[i]),
            r.is_ok() ==> final(tree)@ == apply_batch(old(tree)@, self.items@) && final(tree).lsn
                == old(tree).lsn + self.items@.len(),
            r.is_err() ==> r == Err::<(), Error>(Error::Serialize) && *final(tree) == *old(tree),
    {
        let n = self.items.len();
        let mut i: usize = 0;
        while i < n
            invariant
                n == self.items@.len(),
                0 <= i <= n,
                *tree == *old(tree),
                tree.wf(),
                forall|j: int| 0 <= j < i ==> item_fits(#[trigger] self.items@[j]),
            decreases n - i,
        {
            let fits = self.items[i].0.len() <= MAX_KEY_LEN && match &self.items[i].1 {
                Some(v) => v.len() <= MAX_VALUE_LEN,
                None => true,
            };
            if !fits {
                return Err(Error::Serialize);
            }
            i = i + 1;
        }
        let ghost ops = self.items@;
        let ghost m0 = tree@;
        let ghost lsn0 = tree.lsn;
        let mut items = self.items;
        let mut i: usize = 0;
        while items.len() > 0
            invariant
                ops.len() == n,
                0 <= i <= n,
                items@ == ops.subrange(i as int, n as int),
                forall|j: int| 0 <= j < n ==> item_fits(#[trigger] ops[j]),
                tree.wf(),
                tree.config == old(tree).config,
                tree.lsn == lsn0 + i,
                lsn0 + n < u64::MAX,
                tree@ == apply_batch(m0, ops.subrange(0, i as int)),
            decreases items@.len(),
        {
            let (key, value) = items.remove(0);
            let ghost op = ops[i as int];
            assert(item_fits(op));
            assert(ops.subrange(0, i + 1).drop_last() =~= ops.subrange(0, i as int));
            assert(items@ =~= ops.subrange(i + 1, n as int));
            match value {
                Some(v) => {
                    tree.append_entry(key, v, false);
                },
                None => {
                    tree.append_entry(key, Vec::new(), true);
                },
            }
            i = i + 1;
        }
        assert(ops.subrange(0, n as int) =~= ops);
        Ok(())
    }
}

/// A key's place in the tree: with its visible value, or vacant.
pub enum Entry {
    Occupied { key: Vec<u8>, value: Vec<u8> },
    Vacant { key: Vec<u8> },
}

impl Tree {
    /// An empty batch of writes.
    pub fn batch(&self) -> (r: Batch)
        ensures
            r.items@.len() == 0,
    {
        Batch::new()
    }

    /// The entry of `key`.
    pub fn entry(&self, key: &[u8]) -> (r: Entry)
        requires
            self.wf(),
        ensures
            match r {
                Entry::Occupied { key: k, value: v } => k@ == key@ && self@.contains_key(key@)
                    && self@[key@] == v@,
                Entry::Vacant { key: k } => k@ == key@ && !self@.contains_key(key@),
            },
    {
        let k = crate::codec::copy_range(key, 0, key.len());
        assert(k@ =~= key@);
        match self.get(key) {
            Some(value) => Entry::Occupied { key: k, value },
            None => Entry::Vacant { key: k },
        }
    }

    /// Replaces the value of `key` by `f` of it (`None`: absent; a `None`
    /// result deletes); returns the value before.
    pub fn fetch_update<F: Fn(Option<Vec<u8>>) -> Option<Vec<u8>>>(&mut self, key: &[u8], f: F) -> (r:
        Result<Option<Vec<u8>>, Error>)
        requires
            old(self).wf(),
            old(self).lsn < u64::MAX,
            forall|x: Option<Vec<u8>>| #[trigger] f.requires((x,)),
        ensures
            final(self).wf(),
            final(self).lsn <= old(self).lsn + 1,
            exists|x: Option<Vec<u8>>, n: Option<Vec<u8>>|
                opt_bytes(x) == old(self).visible(key@) && #[trigger] f.ensures((x,), n) && {
                    let fits = key@.len() <= MAX_KEY_LEN && match n {
                        Some(v) => v@.len() <= MAX_VALUE_LEN,
                        None => true,
                    };
                    &&& r.is_ok() == fits
                    &&& r.is_ok() ==> opt_bytes(r.unwrap()) == old(self).visible(key@) && final(self)@
                        == match n {
                        Some(v) => old(self)@.insert(key@, v@),
                        None => old(self)@.remove(key@),
                    }
                    &&& r.is_err() ==> final(self)@ == old(self)@
                },
    {
        let (prev, next, done) = self.update_with(key, f);
        match done {
            Ok(()) => Ok(prev),
            Err(e) => Err(e),
        }
    }

    /// Replaces the value of `key` by `f` of it (`None`: absent; a `None`
    /// result deletes); returns the value after.
    pub fn update_fetch<F: Fn(Option<Vec<u8>>) -> Option<Vec<u8>>>(&mut self, key: &[u8], f: F) -> (r:
        Result<Option<Vec<u8>>, Error>)
        requires
            old(self).wf(),
            old(self).lsn < u64::MAX,
            forall|x: Option<Vec<u8>>| #[trigger] f.requires((x,)),
        ensures
            final(self).wf(),
            final(self).lsn <= old(self).lsn + 1,
            exists|x: Option<Vec<u8>>, n: Option<Vec<u8>>|
                opt_bytes(x) == old(self).visible(key@) && #[trigger] f.ensures((x,), n) && {
                    let fits = key@.len() <= MAX_KEY_LEN && match n {
                        Some(v) => v@.len() <= MAX_VALUE_LEN,
                        None => true,
                    };
                    &&& r.is_ok() == fits
                    &&& r.is_ok() ==> opt_bytes(r.unwrap()) == opt_bytes(n) && final(self)@
                        == match n {
                        Some(v) => old(self)@.insert(key@, v@),
                        None => old(self)@.remove(key@),
                    }
                    &&& r.is_err() ==> final(self)@ == old(self)@
                },
    {
        let (prev, next, done) = self.update_with(key, f);
        match done {
            Ok(()) => Ok(next),
            Err(e) => Err(e),
        }
    }

    /// Reads `key`, computes its next value with `f` and writes it.
    fn update_with<F: Fn(Option<Vec<u8>>) -> Option<Vec<u8>>>(&mut self, key: &[u8], f: F) -> (r: (
        Option<Vec<u8>>,
        Option<Vec<u8>>,
        Result<(), Error>,
    ))
        requires
            old(self).wf(),
            old(self).lsn < u64::MAX,
            forall|x: Option<Vec<u8>>| #[trigger] f.requires((x,)),
        ensures
            final(self).wf(),
            final(self).lsn <= old(self).lsn + 1,
            opt_bytes(r.0) == old(self).visible(key@),
            exists|x: Option<Vec<u8>>|
                opt_bytes(x) == old(self).visible(key@) && #[trigger] f.ensures((x,), r.1),
            ({
                let fits = key@.len() <= MAX_KEY_LEN && match r.1 {
                    Some(v) => v@.len() <= MAX_VALUE_LEN,
                    None => true,
                };
                &&& r.2.is_ok() == fits
                &&& r.2.is_ok() ==> final(self)@ == match r.1 {
                    Some(v) => old(self)@.insert(key@, v@),
                    None => old(self)@.remove(key@),
                }
                &&& r.2.is_err() ==> final(self)@ == old(self)@
            }),
    {
        let prev = self.get(key);
        let arg = match &prev {
            Some(p) => {
                let c = crate::codec::copy_range(p.as_slice(), 0, p.len());
                assert(c@ =~= p@);
                Some(c)
            },
            None => None,
        };
        let ghost x = arg;
        let next = f(arg);
        let k = crate::codec::copy_range(key, 0, key.len());
        assert(k@ =~= key@);
        let done = match &next {
            Some(n) => {
                let c = crate::codec::copy_range(n.as_slice(), 0, n.len());
                assert(c@ =~= n@);
                self.insert(k, c)
            },
            None => self.remove(k),
        };
        assert(opt_bytes(x) == old(self).visible(key@));
        (prev, next, done)
    }
}


/// A record with the key and sequence number of `x` is held by `v`.
pub open spec fn kept(v: Seq<Value>, x: Record) -> bool {
    exists|y: Record| #[trigger] records(v).contains(y) && y.key == x.key && y.seqno == x.seqno
}

/// The records of a vector of values that it holds.
pub open spec fn held(v: Seq<Value>, r: Record) -> bool {
    records(v).contains(r)
}

/// Smallest and largest sequence number of a non-empty run.
fn seqno_bounds(items: &Vec<Value>) -> (r: (u64, u64))
    requires
        items@.len() > 0,
    ensures
        forall|i: int| 0 <= i < items@.len() ==> r.0 <= (#[trigger] items@[i]).seqno <= r.1,
        exists|i: int| 0 <= i < items@.len() && (#[trigger] items@[i]).seqno == r.0,
        exists|i: int| 0 <= i < items@.len() && (#[trigger] items@[i]).seqno == r.1,
{
    let mut lo = items[0].seqno;
    let mut hi = items[0].seqno;
    let mut i: usize = 1;
    while i < items.len()
        invariant
            1 <= i <= items@.len(),
            forall|j: int| 0 <= j < i ==> lo <= (#[trigger] items@[j]).seqno <= hi,
            exists|j: int| 0 <= j < i && (#[trigger] items@[j]).seqno == lo,
            exists|j: int| 0 <= j < i && (#[trigger] items@[j]).seqno == hi,
        decreases items@.len() - i,
    {
        if items[i].seqno < lo {
            lo = items[i].seqno;
        }
        if items[i].seqno > hi {
            hi = items[i].seqno;
        }
        i = i + 1;
    }
    (lo, hi)
}

proof fn lemma_held_at(v: Seq<Value>, i: int)
    requires
        0 <= i < v.len(),
    ensures
        held(v, v[i]@),
{
    assert(records(v)[i] == v[i]@);
}

proof fn lemma_held_index(v: Seq<Value>, r: Record) -> (i: int)
    requires
        held(v, r),
    ensures
        0 <= i < v.len(),
        v[i]@ == r,
{
    let i = choose|i: int| 0 <= i < records(v).len() && records(v)[i] == r;
    i
}

/// Segments are well formed, ordered by level, and disjoint within each deeper level.
pub open spec fn levels_ok(config: Config, segs: Seq<Segment>) -> bool {
    &&& forall|i: int| 0 <= i < segs.len() ==> (#[trigger] segs[i]).wf()
    &&& forall|i: int| 0 <= i < segs.len() ==> (#[trigger] segs[i]).level < config.levels
    &&& forall|i: int, j: int| 0 <= i < j < segs.len() ==> (#[trigger] segs[i]).level <= (#[trigger] segs[j]).level
    &&& forall|i: int, j: int|
        0 <= i < j < segs.len() && (#[trigger] segs[i]).level >= 1 && segs[i].level == (#[trigger] segs[j]).level
            ==> key_lt(segs[i].metadata.key_range.1@, segs[j].metadata.key_range.0@)
}

/// Sequence numbers fall strictly from each segment to the next in read order.
pub open spec fn segment_seqnos_ok(segs: Seq<Segment>) -> bool {
    forall|i: int, j: int, a: Record, b: Record|
        0 <= i < j < segs.len() && #[trigger] segs[i].view_items().contains(a)
            && #[trigger] segs[j].view_items().contains(b) ==> a.seqno > b.seqno
}

/// Every journal record is newer than every segment record.
pub open spec fn journal_newest(journal: Seq<Value>, segs: Seq<Segment>) -> bool {
    forall|a: Record, j: int, b: Record|
        #[trigger] held(journal, a) && 0 <= j < segs.len() && #[trigger] segs[j].view_items().contains(b)
            ==> a.seqno > b.seqno
}

/// Recovered parts fit together: records fit, segments are well formed and
/// ordered by level, keys are disjoint within each deeper level, sequence
/// numbers fall strictly from the journal through the segments in read
/// order, and none is the largest sequence number.
pub open spec fn recoverable(config: Config, journal: Seq<Value>, segs: Seq<Segment>) -> bool {
    &&& forall|i: int| 0 <= i < journal.len() ==> record_fits((#[trigger] journal[i])@)
    &&& levels_ok(config, segs)
    &&& segment_seqnos_ok(segs)
    &&& journal_newest(journal, segs)
    &&& forall|i: int| 0 <= i < journal.len() ==> (#[trigger] journal[i]).seqno < u64::MAX
    &&& forall|j: int, b: Record| 0 <= j < segs.len() && #[trigger] segs[j].view_items().contains(b) ==> b.seqno < u64::MAX
}

fn check_levels(config: &Config, segments: &Vec<Segment>) -> (r: bool)
    ensures
        r == levels_ok(*config, segments@),
{
    let ghost segs = segments@;
    let n = segments.len();
    let mut i: usize = 0;
    while i < n
        invariant
            n == segs.len(),
            segs == segments@,
            0 <= i <= n,
            forall|a: int| 0 <= a < i ==> (#[trigger] segs[a]).wf() && segs[a].level < config.levels,
            forall|a: int, b: int| 0 <= a < b < i ==> (#[trigger] segs[a]).level <= (#[trigger] segs[b]).level,
            forall|a: int, b: int|
                0 <= a < b < i && (#[trigger] segs[a]).level >= 1 && segs[a].level == (#[trigger] segs[b]).level
                    ==> key_lt(segs[a].metadata.key_range.1@, segs[b].metadata.key_range.0@),
        decreases n - i,
    {
        if !segments[i].validate() || segments[i].level >= config.levels {
            return false;
        }
        if i > 0 {
            let p = &segments[i - 1];
            let g = &segments[i];
            if p.level > g.level {
                return false;
            }
            if g.level >= 1 && p.level == g.level && !matches!(
                crate::order::compare_keys(p.metadata.key_range.1.as_slice(), g.metadata.key_range.0.as_slice()),
                core::cmp::Ordering::Less
            ) {
                return false;
            }
            proof {
                assert forall|a: int, b: int|
                    0 <= a < b < i + 1 && (#[trigger] segs[a]).level >= 1 && segs[a].level == (#[trigger] segs[b]).level
                        implies key_lt(segs[a].metadata.key_range.1@, segs[b].metadata.key_range.0@) by {
                    if b == i && a < i - 1 {
                        let q = segs[i - 1];
                        assert(segs[a].level <= q.level);
                        crate::segment::lemma_segment_key_range(q, 0);
                        crate::order::lemma_key_lt_le_trans(
                            segs[a].metadata.key_range.1@,
                            q.metadata.key_range.0@,
                            q.items@[0].key@,
                        );
                        crate::order::lemma_key_lt_le_trans(
                            segs[a].metadata.key_range.1@,
                            q.items@[0].key@,
                            q.metadata.key_range.1@,
                        );
                        crate::order::lemma_key_lt_trans(
                            segs[a].metadata.key_range.1@,
                            q.metadata.key_range.1@,
                            segs[b].metadata.key_range.0@,
                        );
                    }
                }
            }
        }
        i = i + 1;
    }
    true
}

/// Checks that sequence numbers fall from segment to segment; returns the
/// largest one (0 without segments).
fn check_segment_seqnos(segments: &Vec<Segment>) -> (r: (bool, u64))
    requires
        forall|i: int| 0 <= i < segments@.len() ==> (#[trigger] segments@[i]).wf(),
    ensures
        r.0 == segment_seqnos_ok(segments@),
        r.0 ==> forall|c: int, x: Record| 0 <= c < segments@.len() && #[trigger] segments@[c].view_items().contains(x) ==> x.seqno <= r.1,
        r.0 && segments@.len() > 0 ==> exists|c: int, x: Record| 0 <= c < segments@.len() && #[trigger] segments@[c].view_items().contains(x) && x.seqno == r.1,
        segments@.len() == 0 ==> r.1 == 0,
{
    let ghost segs = segments@;
    let n = segments.len();
    let mut floor: u64 = 0;
    let mut i: usize = n;
    while i > 0
        invariant
            n == segs.len(),
            segs == segments@,
            0 <= i <= n,
            forall|a: int| 0 <= a < n ==> (#[trigger] segs[a]).wf(),
            i == n ==> floor == 0,
            forall|c: int, x: Record| i <= c < n && #[trigger] segs[c].view_items().contains(x) ==> x.seqno <= floor,
            i < n ==> exists|c: int, x: Record| i <= c < n && #[trigger] segs[c].view_items().contains(x) && x.seqno == floor,
            forall|a: int, b: int, x: Record, y: Record|
                i <= a < b < n && #[trigger] segs[a].view_items().contains(x)
                    && #[trigger] segs[b].view_items().contains(y) ==> x.seqno > y.seqno,
        decreases i,
    {
        let g = &segments[i - 1];
        let (lo, hi) = seqno_bounds(&g.items);
        proof {
            assert forall|x: Record| #[trigger] segs[i - 1].view_items().contains(x) implies lo <= x.seqno <= hi by {
                let k = choose|k: int| 0 <= k < segs[i - 1].view_items().len() && #[trigger] segs[i - 1].view_items()[k] == x;
                assert(g.items@[k]@ == x);
            }
        }
        if i < n && lo <= floor {
            proof {
                let k = choose|k: int| 0 <= k < g.items@.len() && (#[trigger] g.items@[k]).seqno == lo;
                assert(segs[i - 1].view_items()[k] == g.items@[k]@);
                assert(segs[i - 1].view_items().contains(g.items@[k]@));
                let (c, y) = choose|c: int, y: Record| i <= c < n && #[trigger] segs[c].view_items().contains(y) && y.seqno == floor;
            }
            return (false, floor);
        }
        proof {
            let k = choose|k: int| 0 <= k < g.items@.len() && (#[trigger] g.items@[k]).seqno == hi;
            assert(segs[i - 1].view_items()[k] == g.items@[k]@);
            assert(segs[i - 1].view_items().contains(g.items@[k]@));
        }
        if i == n || hi > floor {
            floor = hi;
        }
        i = i - 1;
    }
    (true, floor)
}

/// No other record of `v` has the key and sequence number of `x`.
pub open spec fn only_version(v: Seq<Value>, x: Record) -> bool {
    forall|y: Record| #[trigger] held(v, y) && y.key == x.key && y.seqno == x.seqno ==> y == x
}

/// Every record of `a` is the record of one of the first `j` values of `v`.
#[verifier::opaque]
pub open spec fn drawn_from(a: Seq<Value>, v: Seq<Value>, j: int) -> bool {
    forall|x: Record| #[trigger] records(a).contains(x) ==> exists|k: int| 0 <= k < j && #[trigger] v[k]@ == x
}

proof fn lemma_drawn_from_all(a: Seq<Value>, v: Seq<Value>)
    requires
        drawn_from(a, v, v.len() as int),
    ensures
        forall|x: Record| #[trigger] records(a).contains(x) ==> held(v, x),
{
    reveal(drawn_from);
    assert forall|x: Record| #[trigger] records(a).contains(x) implies held(v, x) by {
        let k = choose|k: int| 0 <= k < v.len() && #[trigger] v[k]@ == x;
        lemma_held_at(v, k);
    }
}

proof fn lemma_drawn_step(a0: Seq<Value>, a1: Seq<Value>, jr: Seq<Value>, j: int, vr: Record)
    requires
        0 <= j < jr.len(),
        jr[j]@ == vr,
        forall|x: Record|
            records(a1).contains(x) <==> (x == vr || (records(a0).contains(x) && !(x.key == vr.key
                && x.seqno == vr.seqno))),
        drawn_from(a0, jr, j),
    ensures
        drawn_from(a1, jr, j + 1),
{
    reveal(drawn_from);
    assert forall|x: Record| #[trigger] records(a1).contains(x) implies exists|k: int| 0 <= k < j + 1 && #[trigger] jr[k]@ == x by {
        if x != vr {
            assert(records(a0).contains(x));
            let k = choose|k: int| 0 <= k < j && #[trigger] jr[k]@ == x;
        }
    }
}

pub proof fn lemma_build_step(a0: Seq<Value>, a1: Seq<Value>, jr: Seq<Value>, j: int, vr: Record)
    requires
        0 <= j < jr.len(),
        jr[j]@ == vr,
        forall|x: Record|
            records(a1).contains(x) <==> (x == vr || (records(a0).contains(x) && !(x.key == vr.key
                && x.seqno == vr.seqno))),
        forall|k: int| 0 <= k < j ==> kept(a0, #[trigger] jr[k]@),
    ensures
        forall|k: int| 0 <= k < j + 1 ==> kept(a1, #[trigger] jr[k]@),
{
    let o0 = records(a0);
    assert forall|k: int| 0 <= k < j + 1 implies kept(a1, #[trigger] jr[k]@) by {
        if k == j {
            assert(records(a1).contains(vr));
        } else {
            let y = choose|y: Record| #[trigger] o0.contains(y) && y.key == jr[k]@.key && y.seqno == jr[k]@.seqno;
            if y.key == vr.key && y.seqno == vr.seqno {
                assert(records(a1).contains(vr));
            } else {
                assert(records(a1).contains(y));
            }
        }
    }
}

/// Builds the active memtable from journal records, each of which must fit
/// and be newer than `floor` (where `bounded`); returns it with the largest
/// sequence number seen, or `floor`.
#[verifier::rlimit(100)]
fn build_active(journal: &Vec<Value>, bounded: bool, floor: u64) -> (r: Option<(Vec<Value>, u64)>)
    ensures
        r.is_some() == forall|k: int| 0 <= k < journal@.len() ==> record_fits((#[trigger] journal@[k])@) && (bounded ==> journal@[k].seqno > floor),
        r.is_some() ==> {
            let (active, top) = r.unwrap();
            &&& sorted(records(active@))
            &&& journal@.len() == 0 ==> active@.len() == 0
            &&& forall|x: Record| #[trigger] records(active@).contains(x) ==> record_fits(x) && x.seqno <= top && (bounded ==> x.seqno > floor)
            &&& forall|x: Record| held(journal@, x) ==> kept(active@, x)
            &&& forall|x: Record| #[trigger] records(active@).contains(x) ==> held(journal@, x)
            &&& forall|k: int| 0 <= k < journal@.len() ==> (#[trigger] journal@[k]).seqno <= top
            &&& floor <= top
            &&& top == floor || exists|k: int| 0 <= k < journal@.len() && (#[trigger] journal@[k]).seqno == top
        },
{
    let ghost jr = journal@;
    let mut active: Vec<Value> = Vec::new();
    let jn = journal.len();
    let mut top: u64 = floor;
    let mut j: usize = 0;
    proof {
        reveal(drawn_from);
    }
    while j < jn
        invariant
            jn == jr.len(),
            jr == journal@,
            0 <= j <= jn,
            sorted(records(active@)),
            forall|x: Record| #[trigger] records(active@).contains(x) ==> record_fits(x) && x.seqno <= top && (bounded ==> x.seqno > floor),
            j == 0 ==> active@.len() == 0,
            drawn_from(active@, jr, j as int),
            forall|k: int| 0 <= k < j ==> kept(active@, #[trigger] jr[k]@),
            forall|k: int| 0 <= k < j ==> record_fits((#[trigger] jr[k])@) && (bounded ==> jr[k].seqno > floor),
            forall|k: int| 0 <= k < j ==> (#[trigger] jr[k]).seqno <= top,
            floor <= top,
            top == floor || exists|k: int| 0 <= k < j && (#[trigger] jr[k]).seqno == top,
        decreases jn - j,
    {
        let v = journal[j].duplicate();
        if !(v.key.len() <= MAX_KEY_LEN && v.value.len() <= MAX_VALUE_LEN) || (bounded && v.seqno <= floor) {
            assert(!(record_fits(jr[j as int]@) && (bounded ==> jr[j as int].seqno > floor)));
            return None;
        }
        if v.seqno > top {
            top = v.seqno;
        }
        let ghost a0 = active@;
        let ghost vr = v@;
        insert_sorted(&mut active, v);
        proof {
            lemma_build_step(a0, active@, jr, j as int, vr);
            lemma_drawn_step(a0, active@, jr, j as int, vr);
        }
        j = j + 1;
    }
    assert(jr.subrange(0, jn as int) =~= jr);
    proof {
        lemma_drawn_from_all(active@, jr);
        assert forall|x: Record| held(jr, x) implies kept(active@, x) by {
            let k = lemma_held_index(jr, x);
        }
    }
    Some((active, top))
}

impl Tree {
    /// Rebuilds a tree from what was read on open: the records of the active
    /// journal and the segments of the manifest, in read order. The sequence
    /// counter starts past every recovered record.
    pub fn recover(config: Config, journal: Vec<Value>, segments: Vec<Segment>) -> (r: Result<Tree, Error>)
        requires
            config.levels >= 1,
        ensures
            r.is_ok() == recoverable(config, journal@, segments@),
            r.is_err() ==> r == Err::<Tree, Error>(Error::CorruptedManifest),
            r.is_ok() ==> {
                let t = r.unwrap();
                &&& t.wf()
                &&& t.config == config
                &&& t.segments@ == segments@
                &&& forall|x: Record| held(journal@, x) ==> kept(t.active_memtable@, x)
                &&& forall|x: Record| #[trigger] t.comp(0).contains(x) ==> held(journal@, x)
                &&& forall|x: Record|
                    held(journal@, x) && only_version(journal@, x) ==> #[trigger] t.comp(0).contains(x)
                &&& forall|i: int| 0 <= i < segments@.len() ==> (#[trigger] segments@[i]).metadata.seqnos.1 < t.lsn
                &&& t.lsn == 0 || exists|x: Record| #[trigger] t.holds(x) && x.seqno == t.lsn - 1
            },
    {
        let ghost segs = segments@;
        let ghost jr = journal@;
        let n = segments.len();
        let jn = journal.len();
        if !check_levels(&config, &segments) {
            return Err(Error::CorruptedManifest);
        }
        let (ordered, floor) = check_segment_seqnos(&segments);
        if !ordered {
            return Err(Error::CorruptedManifest);
        }
        let built = build_active(&journal, n > 0, floor);
        let (active, top) = match built {
            None => {
                proof {
                    let k = choose|k: int| 0 <= k < jr.len() && !(record_fits((#[trigger] jr[k])@) && (n > 0 ==> jr[k].seqno > floor));
                    if record_fits(jr[k]@) {
                        let (c, y) = choose|c: int, x: Record| 0 <= c < n && #[trigger] segs[c].view_items().contains(x) && x.seqno == floor;
                        lemma_held_at(jr, k);
                        assert(held(jr, jr[k]@) && segs[c].view_items().contains(y));
                    }
                }
                return Err(Error::CorruptedManifest);
            },
            Some(p) => p,
        };
        if (n > 0 || jn > 0) && top == u64::MAX {
            proof {
                if exists|k: int| 0 <= k < jn && (#[trigger] jr[k]).seqno == top {
                    let k = choose|k: int| 0 <= k < jn && (#[trigger] jr[k]).seqno == top;
                } else if n > 0 {
                    let (c, y) = choose|c: int, x: Record| 0 <= c < n && #[trigger] segs[c].view_items().contains(x) && x.seqno == floor;
                    assert(segs[c].view_items().contains(y));
                }
            }
            return Err(Error::CorruptedManifest);
        }
        let lsn = if n > 0 || jn > 0 { top + 1 } else { 0 };
        let t = Tree {
            config,
            lsn,
            active_memtable: active,
            active_journal_size_bytes: 0,
            segments,
            next_segment_id: 0,
        };
        proof {
            assert(t.comp(0) == records(t.active_memtable@));
            assert forall|a: int| 0 <= a < t.segments@.len() implies #[trigger] t.comp(a + 1) == segs[a].view_items() by {}
            assert forall|x: Record| held(jr, x) implies x.seqno < lsn by {
                let k = lemma_held_index(jr, x);
            }
            assert forall|x: Record| #[trigger] t.holds(x) implies x.seqno < t.lsn && record_fits(x) by {
                let c = choose|c: int| 0 <= c < t.ncomps() && #[trigger] t.comp(c).contains(x);
                if c == 0 {
                    assert(records(t.active_memtable@).contains(x));
                    assert(t.active_memtable@.len() > 0);
                } else {
                    let g = segs[c - 1];
                    let k = choose|k: int| 0 <= k < g.view_items().len() && #[trigger] g.view_items()[k] == x;
                    assert(g.items@[k]@ == x);
                    assert(g.wf());
                    assert(t.comp(c) == segs[c - 1].view_items());
                    assert(segments@[c - 1].view_items().contains(x));
                    assert(x.seqno <= floor);
                }
            }
            assert forall|a: int, b: int, x: Record, y: Record|
                0 <= a < b < t.ncomps() && #[trigger] t.comp(a).contains(x) && #[trigger] t.comp(b).contains(y)
                    implies x.seqno > y.seqno by {
                assert(t.comp(b) == segs[b - 1].view_items());
                if a == 0 {
                    assert(records(t.active_memtable@).contains(x));
                } else {
                    assert(t.comp(a) == segs[a - 1].view_items());
                }
            }
            assert(t.wf());
            assert forall|x: Record| held(jr, x) && only_version(jr, x) implies #[trigger] t.comp(0).contains(x) by {
                let y = choose|y: Record| #[trigger] records(active@).contains(y) && y.key == x.key && y.seqno == x.seqno;
                assert(held(jr, y));
            }
            assert forall|i: int| 0 <= i < segs.len() implies (#[trigger] segs[i]).metadata.seqnos.1 < t.lsn by {
                let g = segs[i];
                assert(g.wf());
                let q = choose|q: int| 0 <= q < g.items@.len() && (#[trigger] g.items@[q]).seqno == g.metadata.seqnos.1;
                assert(g.view_items()[q] == g.items@[q]@);
                assert(t.comp(i + 1).contains(g.items@[q]@));
                assert(t.holds(g.items@[q]@));
            }
            if n > 0 || jn > 0 {
                if exists|k: int| 0 <= k < jn && (#[trigger] jr[k]).seqno == top {
                    let k = choose|k: int| 0 <= k < jn && (#[trigger] jr[k]).seqno == top;
                    lemma_held_at(jr, k);
                    let y = choose|y: Record| #[trigger] records(active@).contains(y) && y.key == jr[k]@.key && y.seqno == jr[k]@.seqno;
                    assert(t.comp(0).contains(y));
                    assert(t.holds(y));
                } else {
                    if n == 0 {
                        assert(jr[0].seqno <= top);
                    }
                    assert(top == floor);
                    let (c, y) = choose|c: int, x: Record| 0 <= c < n && #[trigger] segs[c].view_items().contains(x) && x.seqno == floor;
                    assert(t.comp(c + 1) == segs[c].view_items());
                    assert(t.comp(c + 1).contains(y));
                    assert(t.holds(y));
                }
            }
            assert forall|j: int, b: Record| 0 <= j < segs.len() && #[trigger] segs[j].view_items().contains(b) implies b.seqno < u64::MAX by {}
            assert forall|a: Record, j: int, b: Record|
                #[trigger] held(jr, a) && 0 <= j < segs.len() && #[trigger] segs[j].view_items().contains(b)
                    implies a.seqno > b.seqno by {
                let k = lemma_held_index(jr, a);
            }
        }
        Ok(t)
    }
}


/// Bytes of the given segments.
pub open spec fn segments_size(s: Seq<Segment>) -> int
    decreases s.len(),
{
    if s.len() == 0 {
        0
    } else {
        segments_size(s.drop_last()) + s.last().metadata.file_size
    }
}

pub open spec fn saturate(x: int) -> int {
    if x > u64::MAX {
        u64::MAX as int
    } else {
        x
    }
}

impl Tree {
    /// Number of segments.
    pub fn segment_count(&self) -> (r: usize)
        ensures
            r == self.segments@.len(),
    {
        self.segments.len()
    }

    /// Bytes of all segments and of the active journal, saturated at `u64::MAX`.
    pub fn disk_space(&self) -> (r: u64)
        ensures
            r == saturate(segments_size(self.segments@) + self.active_journal_size_bytes),
    {
        let mut total: u64 = 0;
        let mut i: usize = 0;
        while i < self.segments.len()
            invariant
                0 <= i <= self.segments@.len(),
                total == saturate(segments_size(self.segments@.subrange(0, i as int))),
            decreases self.segments@.len() - i,
        {
            let ghost pre = self.segments@.subrange(0, i as int);
            assert(self.segments@.subrange(0, i + 1).drop_last() =~= pre);
            total = total.saturating_add(self.segments[i].metadata.file_size);
            i = i + 1;
        }
        assert(self.segments@.subrange(0, i as int) =~= self.segments@);
        total.saturating_add(self.active_journal_size_bytes as u64)
    }

    /// Whether some segment is being compacted. Compaction runs to completion
    /// within `do_major_compaction`, so none ever is between calls.
    pub fn is_compacting(&self) -> (r: bool)
        ensures
            !r,
    {
        false
    }
}


impl Tree {
    /// Number of level-0 segments; they come first in read order.
    pub fn level0_count(&self) -> (r: usize)
        requires
            self.wf(),
        ensures
            r <= self.segments@.len(),
            forall|i: int| 0 <= i < r ==> (#[trigger] self.segments@[i]).level == 0,
            forall|i: int| r <= i < self.segments@.len() ==> (#[trigger] self.segments@[i]).level > 0,
    {
        let mut k: usize = 0;
        while k < self.segments.len() && self.segments[k].level == 0
            invariant
                self.wf(),
                k <= self.segments@.len(),
                forall|i: int| 0 <= i < k ==> (#[trigger] self.segments@[i]).level == 0,
            decreases self.segments@.len() - k,
        {
            k = k + 1;
        }
        proof {
            assert forall|i: int| k <= i < self.segments@.len() implies (#[trigger] self.segments@[i]).level > 0 by {
                if i > k {
                    assert(self.segments@[k as int].level <= self.segments@[i].level);
                }
            }
        }
        k
    }

    /// Merges the level-0 and level-1 segments into one level-1 segment.
    /// Every record is kept, tombstones and older versions included: deeper
    /// levels may still hold older records of the same keys.
    pub fn compact_level0(&mut self)
        requires
            old(self).wf(),
            old(self).config.levels >= 2,
        ensures
            final(self).wf(),
            final(self)@ == old(self)@,
            final(self).lsn == old(self).lsn,
            final(self).config == old(self).config,
            final(self).active_memtable@ == old(self).active_memtable@,
            forall|r: Record| final(self).holds(r) == old(self).holds(r),
            forall|i: int| 0 <= i < final(self).segments@.len() ==> (#[trigger] final(self).segments@[i]).level >= 1,
    {
        let ghost t0 = *self;
        let n = self.segments.len();
        let mut k: usize = 0;
        while k < n && self.segments[k].level <= 1
            invariant
                *self == t0,
                n == self.segments@.len(),
                k <= n,
                forall|i: int| 0 <= i < k ==> (#[trigger] self.segments@[i]).level <= 1,
            decreases n - k,
        {
            k = k + 1;
        }
        if k == 0 {
            proof {
                assert forall|i: int| 0 <= i < n implies (#[trigger] self.segments@[i]).level >= 1 by {
                    assert(self.segments@[0].level <= self.segments@[i].level);
                }
            }
            return;
        }
        let mut vals: Vec<Value> = Vec::new();
        let mut i: usize = 0;
        while i < k
            invariant
                *self == t0,
                self.wf(),
                n == self.segments@.len(),
                0 < k <= n,
                0 <= i <= k,
                i > 0 ==> vals@.len() > 0,
                forall|x: Record| #[trigger] records(vals@).contains(x) ==> exists|c: int| 1 <= c < k + 1 && #[trigger] self.comp(c).contains(x),
                forall|c: int, x: Record| 1 <= c < i + 1 && #[trigger] self.comp(c).contains(x) ==> records(vals@).contains(x),
                forall|j: int| 0 <= j < vals@.len() ==> record_fits((#[trigger] vals@[j])@),
            decreases k - i,
        {
            let mut j: usize = 0;
            assert(self.segments@[i as int].wf());
            while j < self.segments[i].items.len()
                invariant
                    *self == t0,
                    self.wf(),
                    n == self.segments@.len(),
                    0 <= i < k <= n,
                    0 <= j <= self.segments@[i as int].items@.len(),
                    i > 0 || j > 0 ==> vals@.len() > 0,
                    forall|x: Record| #[trigger] records(vals@).contains(x) ==> exists|c: int| 1 <= c < k + 1 && #[trigger] self.comp(c).contains(x),
                    forall|c: int, x: Record| 1 <= c < i + 1 && #[trigger] self.comp(c).contains(x) ==> records(vals@).contains(x),
                    forall|jj: int| 0 <= jj < j ==> records(vals@).contains(#[trigger] self.segments@[i as int].items@[jj]@),
                    forall|q: int| 0 <= q < vals@.len() ==> record_fits((#[trigger] vals@[q])@),
                decreases self.segments@[i as int].items@.len() - j,
            {
                let x = self.segments[i].items[j].duplicate();
                let ghost xr = x@;
                proof {
                    assert(self.comp(i + 1)[j as int] == xr);
                    assert(self.comp(i + 1).contains(xr));
                    assert(self.holds(xr));
                }
                let ghost v0 = vals@;
                vals.push(x);
                proof {
                    assert(records(vals@) =~= records(v0).push(xr));
                    assert(records(vals@)[v0.len() as int] == xr);
                    assert forall|x2: Record| #[trigger] records(vals@).contains(x2) implies exists|c: int| 1 <= c < k + 1 && #[trigger] self.comp(c).contains(x2) by {
                        if x2 != xr {
                            let q = choose|q: int| 0 <= q < records(vals@).len() && records(vals@)[q] == x2;
                            assert(records(v0)[q] == x2);
                            assert(records(v0).contains(x2));
                        } else {
                            assert(self.comp(i + 1).contains(x2));
                        }
                    }
                    assert forall|c: int, x2: Record| 1 <= c < i + 1 && #[trigger] self.comp(c).contains(x2) implies records(vals@).contains(x2) by {
                        let q = choose|q: int| 0 <= q < records(v0).len() && records(v0)[q] == x2;
                        assert(records(vals@)[q] == x2);
                    }
                    assert forall|jj: int| 0 <= jj < j + 1 implies records(vals@).contains(#[trigger] self.segments@[i as int].items@[jj]@) by {
                        if jj < j {
                            let x3 = self.segments@[i as int].items@[jj]@;
                            let q = choose|q: int| 0 <= q < records(v0).len() && records(v0)[q] == x3;
                            assert(records(vals@)[q] == x3);
                        }
                    }
                }
                j = j + 1;
            }
            proof {
                assert forall|c: int, x2: Record| 1 <= c < i + 2 && #[trigger] self.comp(c).contains(x2) implies records(vals@).contains(x2) by {
                    if c == i + 1 {
                        let s = self.comp(c);
                        let q = choose|q: int| 0 <= q < s.len() && s[q] == x2;
                        assert(self.segments@[i as int].items@[q]@ == x2);
                    }
                }
            }
            i = i + 1;
        }
        let merged = Segment::from_records(self.next_segment_id, 1, vals);
        let merged = match merged {
            Some(m) => m,
            None => {
                return;
            },
        };
        let mut rest = self.segments.split_off(k);
        let mut segments: Vec<Segment> = Vec::new();
        segments.push(merged);
        segments.append(&mut rest);
        self.segments = segments;
        self.next_segment_id = self.next_segment_id.saturating_add(1);
        proof {
            lemma_level0_merged(&t0, self, k as int, records(vals@));
        }
    }
}

impl Tree {
    /// The leveled strategy: once level 0 holds at least `l0_threshold`
    /// segments, they are merged into level 1. Returns whether it compacted.
    pub fn maybe_compact(&mut self, l0_threshold: usize) -> (r: bool)
        requires
            old(self).wf(),
            old(self).config.levels >= 2,
        ensures
            final(self).wf(),
            final(self)@ == old(self)@,
            final(self).lsn == old(self).lsn,
            final(self).config == old(self).config,
            r == (l0_threshold <= old(self).segments@.len() && forall|i: int|
                0 <= i < l0_threshold ==> (#[trigger] old(self).segments@[i]).level == 0),
            !r ==> final(self).segments@ == old(self).segments@,
            r ==> forall|i: int| 0 <= i < final(self).segments@.len() ==> (#[trigger] final(self).segments@[i]).level >= 1,
    {
        let count = self.level0_count();
        if count >= l0_threshold {
            self.compact_level0();
            true
        } else {
            proof {
                if l0_threshold <= self.segments@.len() {
                    assert(self.segments@[count as int].level > 0);
                }
            }
            false
        }
    }
}

/// Facts about a tree whose first `k` segments were merged into one level-1 segment.
proof fn lemma_level0_merged(t0: &Tree, t1: &Tree, k: int, vs: Seq<Record>)
    requires
        t0.wf(),
        t0.config.levels >= 2,
        0 < k <= t0.segments@.len(),
        forall|i: int| 0 <= i < k ==> (#[trigger] t0.segments@[i]).level <= 1,
        k < t0.segments@.len() ==> t0.segments@[k].level > 1,
        t1.active_memtable@ == t0.active_memtable@,
        t1.lsn == t0.lsn,
        t1.config == t0.config,
        t1.segments@.len() == t0.segments@.len() - k + 1,
        t1.segments@[0].wf(),
        t1.segments@[0].level == 1,
        forall|i: int| 1 <= i < t1.segments@.len() ==> #[trigger] t1.segments@[i] == t0.segments@[i + k - 1],
        forall|x: Record| #[trigger] t1.segments@[0].view_items().contains(x) ==> vs.contains(x),
        forall|x: Record| #[trigger] vs.contains(x) ==> exists|c: int| 1 <= c < k + 1 && #[trigger] t0.comp(c).contains(x),
        forall|c: int, x: Record| 1 <= c < k + 1 && #[trigger] t0.comp(c).contains(x) ==> vs.contains(x),
        forall|q: int| 0 <= q < vs.len() ==> kept_rec(t1.segments@[0].view_items(), #[trigger] vs[q]),
    ensures
        t1.wf(),
        t1@ == t0@,
        forall|r: Record| t1.holds(r) == t0.holds(r),
        forall|i: int| 0 <= i < t1.segments@.len() ==> (#[trigger] t1.segments@[i]).level >= 1,
{
    let m = t1.segments@[0].view_items();
    assert(t1.comp(0) == t0.comp(0));
    assert(t1.comp(1) == m);
    assert forall|c: int| 2 <= c < t1.ncomps() implies #[trigger] t1.comp(c) == t0.comp(c + k - 1) by {
        assert(t1.segments@[c - 1] == t0.segments@[c + k - 2]);
    }
    // Records of the merged segment are records of the first k segments, and back.
    assert forall|x: Record| m.contains(x) implies exists|c: int| 1 <= c < k + 1 && #[trigger] t0.comp(c).contains(x) by {
        assert(vs.contains(x));
    }
    assert forall|c: int, x: Record| 1 <= c < k + 1 && #[trigger] t0.comp(c).contains(x) implies m.contains(x) by {
        assert(vs.contains(x));
        let q = choose|q: int| 0 <= q < vs.len() && vs[q] == x;
        assert(kept_rec(m, vs[q]));
        let y = choose|y: Record| #[trigger] m.contains(y) && y.key == x.key && y.seqno == x.seqno;
        let c2 = choose|c2: int| 1 <= c2 < k + 1 && #[trigger] t0.comp(c2).contains(y);
        assert(t0.holds(x) && t0.holds(y));
        lemma_held_unique(t0, x, y);
    }
    assert forall|r: Record| t1.holds(r) == t0.holds(r) by {
        if t1.holds(r) {
            let c = choose|c: int| 0 <= c < t1.ncomps() && #[trigger] t1.comp(c).contains(r);
            if c == 1 {
                let c2 = choose|c2: int| 1 <= c2 < k + 1 && #[trigger] t0.comp(c2).contains(r);
            } else if c >= 2 {
                assert(t0.comp(c + k - 1).contains(r));
            }
        }
        if t0.holds(r) {
            let c = choose|c: int| 0 <= c < t0.ncomps() && #[trigger] t0.comp(c).contains(r);
            if 1 <= c < k + 1 {
                assert(t1.comp(1).contains(r));
            } else if c >= k + 1 {
                assert(t1.comp(c - k + 1).contains(r));
            }
        }
    }
    assert forall|i: int| 0 <= i < t1.segments@.len() implies (#[trigger] t1.segments@[i]).wf()
        && t1.segments@[i].level < t1.config.levels && t1.segments@[i].level >= 1 by {
        if i >= 1 {
            assert(t0.segments@[i + k - 1].wf());
            assert(t0.segments@[k].level <= t0.segments@[i + k - 1].level);
        }
    }
    assert forall|i: int, j: int| 0 <= i < j < t1.segments@.len() implies (#[trigger] t1.segments@[i]).level
        <= (#[trigger] t1.segments@[j]).level by {
        if i >= 1 {
            assert(t0.segments@[i + k - 1].level <= t0.segments@[j + k - 1].level);
        } else {
            assert(t0.segments@[k].level <= t0.segments@[j + k - 1].level);
        }
    }
    assert forall|i: int, j: int|
        0 <= i < j < t1.segments@.len() && (#[trigger] t1.segments@[i]).level >= 1
            && t1.segments@[i].level == (#[trigger] t1.segments@[j]).level implies key_lt(
        t1.segments@[i].metadata.key_range.1@,
        t1.segments@[j].metadata.key_range.0@,
    ) by {
        if i >= 1 {
            assert(t1.segments@[i] == t0.segments@[i + k - 1]);
            assert(t1.segments@[j] == t0.segments@[j + k - 1]);
        } else {
            assert(t0.segments@[k].level <= t0.segments@[j + k - 1].level);
        }
    }
    assert forall|r: Record| #[trigger] t1.holds(r) implies r.seqno < t1.lsn && record_fits(r) by {
        assert(t0.holds(r));
    }
    assert forall|a: int, b: int, x: Record, y: Record|
        0 <= a < b < t1.ncomps() && #[trigger] t1.comp(a).contains(x) && #[trigger] t1.comp(b).contains(y)
            implies x.seqno > y.seqno by {
        let a0 = if a <= 1 {
            if a == 0 {
                0
            } else {
                choose|c: int| 1 <= c < k + 1 && #[trigger] t0.comp(c).contains(x)
            }
        } else {
            a + k - 1
        };
        let b0 = if b == 1 {
            choose|c: int| 1 <= c < k + 1 && #[trigger] t0.comp(c).contains(y)
        } else {
            b + k - 1
        };
        if a == 1 {
            assert(b >= 2);
        }
        assert(t0.comp(a0).contains(x));
        assert(t0.comp(b0).contains(y));
    }
    assert(t1.wf());
    lemma_same_holds(t0, t1);
}

/// A record with the key and sequence number of `x` is in `s`.
pub open spec fn kept_rec(s: Seq<Record>, x: Record) -> bool {
    exists|y: Record| #[trigger] s.contains(y) && y.key == x.key && y.seqno == x.seqno
}


/// Reopening shows the same mappings: a tree rebuilt (as `Tree::recover`
/// rebuilds it) from a journal holding the records of `t`'s memtable and from
/// `t`'s segments maps every key as `t` does.
pub proof fn lemma_reopen_same_view(t: &Tree, journal: Seq<Value>, t2: &Tree)
    requires
        t.wf(),
        t2.wf(),
        t2.segments@ == t.segments@,
        records(journal) == t.comp(0),
        forall|x: Record| #[trigger] t2.comp(0).contains(x) ==> held(journal, x),
        forall|x: Record| held(journal, x) && only_version(journal, x) ==> #[trigger] t2.comp(0).contains(x),
    ensures
        t2@ == t@,
{
    let s = t.comp(0);
    lemma_comp_sorted(t, 0);
    assert forall|x: Record| held(journal, x) implies #[trigger] t2.comp(0).contains(x) by {
        assert forall|y: Record| #[trigger] held(journal, y) && y.key == x.key && y.seqno == x.seqno implies y == x by {
            let a = choose|a: int| 0 <= a < s.len() && s[a] == x;
            let b = choose|b: int| 0 <= b < s.len() && s[b] == y;
            lemma_sorted_unique(s, a, b);
        }
    }
    assert forall|i: int| 1 <= i < t.ncomps() implies #[trigger] t2.comp(i) == t.comp(i) by {}
    assert forall|r: Record| t.holds(r) == t2.holds(r) by {
        if t.holds(r) {
            let c = choose|c: int| 0 <= c < t.ncomps() && #[trigger] t.comp(c).contains(r);
            if c == 0 {
                assert(t2.comp(0).contains(r));
            } else {
                assert(t2.comp(c).contains(r));
            }
        }
        if t2.holds(r) {
            let c = choose|c: int| 0 <= c < t2.ncomps() && #[trigger] t2.comp(c).contains(r);
            if c == 0 {
                assert(held(journal, r));
                assert(t.comp(0).contains(r));
            } else {
                assert(t.comp(c).contains(r));
            }
        }
    }
    lemma_same_holds(t, t2);
}

} // verus!
