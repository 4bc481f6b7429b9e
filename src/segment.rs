use vstd::prelude::*;
use crate::codec::copy_range;
use crate::order::key_le;
use crate::run::{find_newest, has_key, insert_sorted, is_newest, lemma_sorted_keys, records, sorted};
use crate::value::{record_fits, Record, Value};

verus! {

/// What a segment records about itself.
pub struct Metadata {
    /// Unique id; a larger id is a later segment.
    pub id: u64,
    pub item_count: u64,
    /// Smallest and largest user key.
    pub key_range: (Vec<u8>, Vec<u8>),
    /// Smallest and largest sequence number.
    pub seqnos: (u64, u64),
    /// Bytes of the encoded items, saturated at `u64::MAX`.
    pub file_size: u64,
}

/// An immutable sorted run of records.
pub struct Segment {
    pub metadata: Metadata,
    /// The level the segment belongs to.
    pub level: usize,
    pub items: Vec<Value>,
}

/// Bytes of records in a segment's files.
pub open spec fn items_bytes(rs: Seq<Record>) -> int
    decreases rs.len(),
{
    if rs.len() == 0 {
        0
    } else {
        items_bytes(rs.drop_last()) + 15 + rs.last().key.len() + rs.last().value.len()
    }
}

impl Segment {
    /// The records held, in internal-key order.
    pub open spec fn view_items(&self) -> Seq<Record> {
        records(self.items@)
    }

    pub open spec fn wf(&self) -> bool {
        &&& sorted(self.view_items())
        &&& self.items@.len() > 0
        &&& self.metadata.item_count == self.items@.len()
        &&& self.metadata.key_range.0@ == self.items@[0].key@
        &&& self.metadata.key_range.1@ == self.items@[self.items@.len() - 1].key@
        &&& forall|i: int|
            0 <= i < self.items@.len() ==> self.metadata.seqnos.0 <= (#[trigger] self.items@[i]).seqno
                <= self.metadata.seqnos.1
        &&& exists|i: int| 0 <= i < self.items@.len() && (#[trigger] self.items@[i]).seqno == self.metadata.seqnos.0
        &&& exists|i: int| 0 <= i < self.items@.len() && (#[trigger] self.items@[i]).seqno == self.metadata.seqnos.1
        &&& forall|i: int| 0 <= i < self.items@.len() ==> record_fits((#[trigger] self.items@[i])@)
        &&& self.metadata.file_size == crate::tree::saturate(items_bytes(self.view_items()))
    }

    /// Builds a segment of the given sorted, non-empty records.
    pub fn new(id: u64, level: usize, items: Vec<Value>) -> (r: Segment)
        requires
            sorted(records(items@)),
            items@.len() > 0,
            forall|i: int| 0 <= i < items@.len() ==> record_fits((#[trigger] items@[i])@),
        ensures
            r.wf(),
            r.items@ == items@,
            r.metadata.id == id,
            r.level == level,
    {
        let n = items.len();
        let first = copy_range(items[0].key.as_slice(), 0, items[0].key.len());
        let last = copy_range(items[n - 1].key.as_slice(), 0, items[n - 1].key.len());
        assert(first@ =~= items@[0].key@);
        assert(last@ =~= items@[n - 1].key@);
        let mut lo: u64 = items[0].seqno;
        let mut hi: u64 = items[0].seqno;
        let mut size: u64 = 0;
        let mut i: usize = 0;
        while i < n
            invariant
                n == items@.len(),
                0 <= i <= n,
                lo <= items@[0].seqno <= hi,
                forall|j: int| 0 <= j < i ==> lo <= (#[trigger] items@[j]).seqno <= hi,
                exists|j: int| 0 <= j < n && (#[trigger] items@[j]).seqno == lo,
                exists|j: int| 0 <= j < n && (#[trigger] items@[j]).seqno == hi,
                forall|j: int| 0 <= j < items@.len() ==> record_fits((#[trigger] items@[j])@),
                size == crate::tree::saturate(items_bytes(records(items@).subrange(0, i as int))),
            decreases n - i,
        {
            proof {
                let rs = records(items@);
                assert(rs.subrange(0, i + 1).drop_last() =~= rs.subrange(0, i as int));
                assert(rs.subrange(0, i + 1).last() == items@[i as int]@);
            }
            let s = items[i].seqno;
            if s < lo {
                lo = s;
            }
            if s > hi {
                hi = s;
            }
            let item_size = 15u64 + items[i].key.len() as u64 + items[i].value.len() as u64;
            size = size.saturating_add(item_size);
            i = i + 1;
        }
        assert(records(items@).subrange(0, n as int) =~= records(items@));
        Segment {
            metadata: Metadata {
                id,
                item_count: n as u64,
                key_range: (first, last),
                seqnos: (lo, hi),
                file_size: size,
            },
            level,
            items,
        }
    }

    /// The newest record of `key` in this segment, tombstone or not.
    pub fn get(&self, key: &[u8]) -> (r: Option<Value>)
        requires
            self.wf(),
        ensures
            r.is_some() == has_key(self.view_items(), key@),
            r.is_some() ==> is_newest(self.view_items(), key@, r.unwrap()@),
    {
        find_newest(&self.items, key)
    }
}

impl Segment {
    /// Builds a segment of `values` in any order, as a memtable flush does.
    /// `None` where there are none or one does not fit the encoding.
    pub fn from_records(id: u64, level: usize, values: Vec<Value>) -> (r: Option<Segment>)
        ensures
            r.is_some() == (values@.len() > 0 && forall|i: int|
                0 <= i < values@.len() ==> record_fits((#[trigger] values@[i])@)),
            r.is_some() ==> r.unwrap().wf() && r.unwrap().metadata.id == id && r.unwrap().level
                == level && (forall|x: Record|
                r.unwrap().view_items().contains(x) ==> records(values@).contains(x)) && forall|k: int|
                0 <= k < values@.len() ==> crate::tree::kept(r.unwrap().items@, #[trigger] values@[k]@),
            r.is_some() ==> forall|x: Record|
                crate::tree::held(values@, x) && crate::tree::only_version(values@, x) ==> #[trigger] r.unwrap().view_items().contains(x),
    {
        let n = values.len();
        if n == 0 {
            return None;
        }
        let ghost vs = records(values@);
        let ghost orig = values@;
        assert forall|j: int| 0 <= j < n implies #[trigger] vs[j] == orig[j]@ by {}
        let mut items: Vec<Value> = Vec::new();
        let mut rest = values;
        let mut i: usize = 0;
        while rest.len() > 0
            invariant
                n == vs.len(),
                orig == values@,
                orig.len() == n,
                forall|j: int| 0 <= j < n ==> #[trigger] vs[j] == orig[j]@,
                0 <= i <= n,
                records(rest@) == vs.subrange(i as int, n as int),
                sorted(records(items@)),
                items@.len() > 0 || i == 0,
                forall|x: Record| records(items@).contains(x) ==> vs.subrange(0, i as int).contains(x),
                forall|j: int| 0 <= j < i ==> record_fits(#[trigger] vs[j]),
                forall|k: int| 0 <= k < i ==> crate::tree::kept(items@, #[trigger] orig[k]@),
            decreases rest@.len(),
        {
            let ghost r0 = rest@;
            assert(records(r0).len() == r0.len());
            assert(records(r0)[0] == vs[i as int]);
            let v = rest.remove(0);
            assert(v@ == vs[i as int]);
            assert forall|j: int| 0 <= j < rest@.len() implies #[trigger] records(rest@)[j] == vs.subrange(i + 1, n as int)[j] by {
                assert(rest@[j] == r0[j + 1]);
                assert(records(r0)[j + 1] == vs.subrange(i as int, n as int)[j + 1]);
            }
            assert(records(rest@) =~= vs.subrange(i + 1, n as int));
            if !(v.key.len() <= crate::value::MAX_KEY_LEN && v.value.len() <= crate::value::MAX_VALUE_LEN) {
                assert(!record_fits(orig[i as int]@));
                return None;
            }
            let ghost o0 = records(items@);
            let ghost a0 = items@;
            insert_sorted(&mut items, v);
            proof {
                crate::tree::lemma_build_step(a0, items@, orig, i as int, orig[i as int]@);
                assert(records(items@).contains(vs[i as int])) by {
                    assert(records(items@).contains(v@));
                }
                assert forall|x: Record| records(items@).contains(x) implies vs.subrange(0, i + 1).contains(x) by {
                    if x == vs[i as int] {
                        assert(vs.subrange(0, i + 1)[i as int] == x);
                    } else {
                        assert(o0.contains(x));
                        let j = choose|j: int| 0 <= j < i && vs.subrange(0, i as int)[j] == x;
                        assert(vs.subrange(0, i + 1)[j] == x);
                    }
                }
                let c = choose|c: int| 0 <= c < records(items@).len() && records(items@)[c] == vs[i as int];
                assert(items@.len() > 0);
            }
            i = i + 1;
        }
        assert(vs.subrange(0, n as int) =~= vs);
        assert forall|j: int| 0 <= j < n implies record_fits((#[trigger] orig[j])@) by {
            assert(record_fits(vs[j]));
        }
        assert forall|k: int| 0 <= k < items@.len() implies record_fits((#[trigger] items@[k])@) by {
            assert(records(items@)[k] == items@[k]@);
            assert(records(items@).contains(items@[k]@));
        }
        proof {
            assert forall|x: Record|
                crate::tree::held(orig, x) && crate::tree::only_version(orig, x) implies #[trigger] records(items@).contains(x) by {
                let k = choose|k: int| 0 <= k < records(orig).len() && records(orig)[k] == x;
                assert(orig[k]@ == x);
                assert(crate::tree::kept(items@, orig[k]@));
                let y = choose|y: Record| #[trigger] records(items@).contains(y) && y.key == x.key && y.seqno == x.seqno;
                assert(vs.subrange(0, n as int).contains(y));
                assert(crate::tree::held(orig, y));
            }
        }
        Some(Segment::new(id, level, items))
    }
}

impl Segment {
    /// Whether the segment is well formed.
    pub fn validate(&self) -> (r: bool)
        ensures
            r == self.wf(),
    {
        let n = self.items.len();
        if n == 0 || self.metadata.item_count != n as u64 {
            return false;
        }
        let ghost s = self.view_items();
        let mut i: usize = 0;
        let mut found_lo = false;
        let mut found_hi = false;
        let mut size: u64 = 0;
        while i < n
            invariant
                n == self.items@.len(),
                s == self.view_items(),
                0 <= i <= n,
                found_lo == exists|j: int| 0 <= j < i && (#[trigger] self.items@[j]).seqno == self.metadata.seqnos.0,
                found_hi == exists|j: int| 0 <= j < i && (#[trigger] self.items@[j]).seqno == self.metadata.seqnos.1,
                size == crate::tree::saturate(items_bytes(s.subrange(0, i as int))),
                forall|a: int, b: int| 0 <= a < b < i ==> crate::value::internal_lt(#[trigger] s[a], #[trigger] s[b]),
                forall|j: int| 0 <= j < i ==> record_fits((#[trigger] self.items@[j])@),
                forall|j: int|
                    0 <= j < i ==> self.metadata.seqnos.0 <= (#[trigger] self.items@[j]).seqno
                        <= self.metadata.seqnos.1,
            decreases n - i,
        {
            let x = &self.items[i];
            assert(s[i as int] == x@);
            if !(x.key.len() <= crate::value::MAX_KEY_LEN && x.value.len() <= crate::value::MAX_VALUE_LEN) {
                return false;
            }
            if x.seqno < self.metadata.seqnos.0 || x.seqno > self.metadata.seqnos.1 {
                return false;
            }
            if x.seqno == self.metadata.seqnos.0 {
                found_lo = true;
            }
            if x.seqno == self.metadata.seqnos.1 {
                found_hi = true;
            }
            proof {
                assert(s.subrange(0, i + 1).drop_last() =~= s.subrange(0, i as int));
                assert(s.subrange(0, i + 1).last() == x@);
            }
            size = size.saturating_add(15u64 + x.key.len() as u64 + x.value.len() as u64);
            if i > 0 {
                let p = &self.items[i - 1];
                assert(s[i - 1] == p@);
                let c = crate::order::compare_keys(p.key.as_slice(), x.key.as_slice());
                let ok = matches!(c, core::cmp::Ordering::Less) || (matches!(c, core::cmp::Ordering::Equal)
                    && p.seqno > x.seqno);
                if !ok {
                    return false;
                }
                assert forall|a: int, b: int| 0 <= a < b < i + 1 implies crate::value::internal_lt(
                    #[trigger] s[a],
                    #[trigger] s[b],
                ) by {
                    if b == i && a < i - 1 {
                        crate::value::lemma_internal_lt_trans(s[a], s[i - 1], s[b]);
                    }
                }
            }
            i = i + 1;
        }
        let first_ok = matches!(
            crate::order::compare_keys(self.metadata.key_range.0.as_slice(), self.items[0].key.as_slice()),
            core::cmp::Ordering::Equal
        );
        let last_ok = matches!(
            crate::order::compare_keys(self.metadata.key_range.1.as_slice(), self.items[n - 1].key.as_slice()),
            core::cmp::Ordering::Equal
        );
        assert(s.subrange(0, n as int) =~= s);
        first_ok && last_ok && found_lo && found_hi && size == self.metadata.file_size
    }
}

/// Keys of a well-formed segment lie within its key range.
pub proof fn lemma_segment_key_range(g: Segment, i: int)
    requires
        g.wf(),
        0 <= i < g.items@.len(),
    ensures
        key_le(g.metadata.key_range.0@, g.items@[i].key@),
        key_le(g.items@[i].key@, g.metadata.key_range.1@),
{
    let s = g.view_items();
    assert(s[0] == g.items@[0]@);
    assert(s[i] == g.items@[i]@);
    assert(s[s.len() - 1] == g.items@[s.len() - 1]@);
    lemma_sorted_keys(s, 0, i);
    lemma_sorted_keys(s, i, s.len() - 1);
}

} // verus!
