use vstd::prelude::*;
use crate::order::{
    compare_keys, key_le, key_lt, lemma_key_le_lt_trans, lemma_key_lt_asym, lemma_key_lt_irrefl,
    lemma_key_total,
};
use crate::value::{internal_lt, lemma_internal_lt_trans, Record, Value};

verus! {

/// The records held by a vector of values.
pub open spec fn records(v: Seq<Value>) -> Seq<Record> {
    v.map_values(|x: Value| x@)
}

/// Strictly ascending in internal-key order.
pub open spec fn sorted(s: Seq<Record>) -> bool {
    forall|i: int, j: int| 0 <= i < j < s.len() ==> internal_lt(#[trigger] s[i], #[trigger] s[j])
}

/// `r` is the record of `s` with key `k` and the greatest sequence number.
pub open spec fn is_newest(s: Seq<Record>, k: Seq<u8>, r: Record) -> bool {
    &&& s.contains(r)
    &&& r.key == k
    &&& forall|i: int| 0 <= i < s.len() && (#[trigger] s[i]).key == k ==> s[i].seqno <= r.seqno
}

/// Some record of `s` has key `k`.
pub open spec fn has_key(s: Seq<Record>, k: Seq<u8>) -> bool {
    exists|i: int| 0 <= i < s.len() && (#[trigger] s[i]).key == k
}

pub proof fn lemma_sorted_keys(s: Seq<Record>, i: int, j: int)
    requires
        sorted(s),
        0 <= i <= j < s.len(),
    ensures
        key_le(s[i].key, s[j].key),
{
    if i < j {
        assert(internal_lt(s[i], s[j]));
    }
}

/// In a sorted run, two records with the same key and sequence number are one.
pub proof fn lemma_sorted_unique(s: Seq<Record>, i: int, j: int)
    requires
        sorted(s),
        0 <= i < s.len(),
        0 <= j < s.len(),
        s[i].key == s[j].key,
        s[i].seqno == s[j].seqno,
    ensures
        i == j,
{
    if i < j {
        assert(internal_lt(s[i], s[j]));
        lemma_key_lt_irrefl(s[i].key);
    } else if j < i {
        assert(internal_lt(s[j], s[i]));
        lemma_key_lt_irrefl(s[i].key);
    }
}

/// First index whose key is not below `k`.
pub fn key_lower_bound(items: &Vec<Value>, k: &[u8]) -> (r: usize)
    requires
        sorted(records(items@)),
    ensures
        r <= items@.len(),
        forall|i: int| 0 <= i < r ==> key_lt((#[trigger] items@[i]).key@, k@),
        forall|i: int| r <= i < items@.len() ==> !key_lt((#[trigger] items@[i]).key@, k@),
{
    let ghost s = records(items@);
    let mut lo: usize = 0;
    let mut hi: usize = items.len();
    while lo < hi
        invariant
            0 <= lo <= hi <= items@.len(),
            s == records(items@),
            sorted(s),
            forall|i: int| 0 <= i < lo ==> key_lt((#[trigger] items@[i]).key@, k@),
            forall|i: int| hi <= i < items@.len() ==> !key_lt((#[trigger] items@[i]).key@, k@),
        decreases hi - lo,
    {
        let mid = lo + (hi - lo) / 2;
        assert(s[mid as int] == items@[mid as int]@);
        if matches!(compare_keys(items[mid].key.as_slice(), k), core::cmp::Ordering::Less) {
            assert forall|i: int| 0 <= i < mid + 1 implies key_lt(
                (#[trigger] items@[i]).key@,
                k@,
            ) by {
                if i < lo {
                } else {
                    assert(s[i] == items@[i]@);
                    lemma_sorted_keys(s, i, mid as int);
                    lemma_key_le_lt_trans(items@[i].key@, items@[mid as int].key@, k@);
                }
            }
            lo = mid + 1;
        } else {
            assert forall|i: int| mid <= i < items@.len() implies !key_lt(
                (#[trigger] items@[i]).key@,
                k@,
            ) by {
                if i >= hi {
                } else {
                    assert(s[i] == items@[i]@);
                    lemma_sorted_keys(s, mid as int, i);
                    if key_lt(items@[i].key@, k@) {
                        lemma_key_le_lt_trans(items@[mid as int].key@, items@[i].key@, k@);
                    }
                }
            }
            hi = mid;
        }
    }
    lo
}

/// The record of a sorted run with key `k` and the greatest sequence number.
pub fn find_newest(items: &Vec<Value>, k: &[u8]) -> (r: Option<Value>)
    requires
        sorted(records(items@)),
    ensures
        r.is_some() == has_key(records(items@), k@),
        r.is_some() ==> is_newest(records(items@), k@, r.unwrap()@),
{
    let ghost s = records(items@);
    let i = key_lower_bound(items, k);
    if i < items.len() && matches!(compare_keys(items[i].key.as_slice(), k), core::cmp::Ordering::Equal) {
        let r = items[i].duplicate();
        assert(s[i as int] == r@);
        assert forall|j: int| 0 <= j < s.len() && (#[trigger] s[j]).key == k@ implies s[j].seqno
            <= r@.seqno by {
            assert(s[j] == items@[j]@);
            if j < i {
                lemma_key_lt_irrefl(k@);
            } else if j > i {
                assert(internal_lt(s[i as int], s[j]));
                lemma_key_lt_irrefl(k@);
            }
        }
        assert(has_key(s, k@));
        Some(r)
    } else {
        assert forall|j: int| 0 <= j < s.len() implies (#[trigger] s[j]).key != k@ by {
            assert(s[j] == items@[j]@);
            if j < i {
                lemma_key_lt_asym(items@[j].key@, k@);
            } else {
                lemma_key_total(items@[j].key@, k@);
                if j > i && items@[j].key@ == k@ {
                    lemma_sorted_keys(s, i as int, j);
                    if items@[i as int].key@ != k@ {
                        lemma_key_lt_asym(items@[i as int].key@, k@);
                    }
                }
            }
        }
        None
    }
}

/// First index whose record is not below `v` in internal-key order.
fn internal_lower_bound(items: &Vec<Value>, v: &Value) -> (r: usize)
    requires
        sorted(records(items@)),
    ensures
        r <= items@.len(),
        forall|i: int| 0 <= i < r ==> internal_lt((#[trigger] items@[i])@, v@),
        forall|i: int| r <= i < items@.len() ==> !internal_lt((#[trigger] items@[i])@, v@),
{
    let ghost s = records(items@);
    let mut lo: usize = 0;
    let mut hi: usize = items.len();
    while lo < hi
        invariant
            0 <= lo <= hi <= items@.len(),
            s == records(items@),
            sorted(s),
            forall|i: int| 0 <= i < lo ==> internal_lt((#[trigger] items@[i])@, v@),
            forall|i: int| hi <= i < items@.len() ==> !internal_lt((#[trigger] items@[i])@, v@),
        decreases hi - lo,
    {
        let mid = lo + (hi - lo) / 2;
        assert(s[mid as int] == items@[mid as int]@);
        let c = compare_keys(items[mid].key.as_slice(), v.key.as_slice());
        let below = matches!(c, core::cmp::Ordering::Less) || (matches!(c, core::cmp::Ordering::Equal)
            && items[mid].seqno > v.seqno);
        if below {
            assert forall|i: int| 0 <= i < mid + 1 implies internal_lt(
                (#[trigger] items@[i])@,
                v@,
            ) by {
                if lo <= i < mid {
                    assert(s[i] == items@[i]@);
                    assert(internal_lt(s[i], s[mid as int]));
                    lemma_internal_lt_trans(s[i], s[mid as int], v@);
                }
            }
            lo = mid + 1;
        } else {
            assert forall|i: int| mid <= i < items@.len() implies !internal_lt(
                (#[trigger] items@[i])@,
                v@,
            ) by {
                if mid < i < hi {
                    assert(s[i] == items@[i]@);
                    assert(internal_lt(s[mid as int], s[i]));
                    if internal_lt(s[i], v@) {
                        lemma_internal_lt_trans(s[mid as int], s[i], v@);
                    }
                }
            }
            hi = mid;
        }
    }
    lo
}

/// Inserts `v` into a sorted run; a record with the same key and sequence
/// number is replaced.
pub fn insert_sorted(items: &mut Vec<Value>, v: Value)
    requires
        sorted(records(old(items)@)),
    ensures
        sorted(records(final(items)@)),
        forall|r: Record|
            records(final(items)@).contains(r) <==> (r == v@ || (records(old(items)@).contains(r)
                && !(r.key == v@.key && r.seqno == v@.seqno))),
        final(items)@.len() == old(items)@.len() + if exists|j: int|
            0 <= j < old(items)@.len() && (#[trigger] old(items)@[j]).key@ == v.key@ && old(items)@[j].seqno
                == v.seqno {
            0int
        } else {
            1int
        },
{
    let ghost s = records(items@);
    let i = internal_lower_bound(items, &v);
    let ghost vr = v@;
    if i < items.len() && items[i].seqno == v.seqno && matches!(
        compare_keys(items[i].key.as_slice(), v.key.as_slice()),
        core::cmp::Ordering::Equal
    ) {
        assert(s[i as int] == old(items)@[i as int]@);
        items.set(i, v);
        let ghost t = records(items@);
        assert(t =~= s.update(i as int, vr));
        assert forall|a: int, b: int| 0 <= a < b < t.len() implies internal_lt(
            #[trigger] t[a],
            #[trigger] t[b],
        ) by {
            if a == i {
                assert(internal_lt(s[a], s[b]));
            } else if b == i {
                assert(internal_lt(s[a], s[b]));
            }
        }
        assert forall|r: Record| t.contains(r) <==> (r == vr || (s.contains(r) && !(r.key
            == vr.key && r.seqno == vr.seqno))) by {
            if t.contains(r) {
                let j = choose|j: int| 0 <= j < t.len() && t[j] == r;
                if j != i {
                    assert(s[j] == r);
                    if r.key == vr.key && r.seqno == vr.seqno {
                        lemma_sorted_unique(s, i as int, j);
                    }
                }
            }
            if r == vr {
                assert(t[i as int] == r);
            } else if s.contains(r) && !(r.key == vr.key && r.seqno == vr.seqno) {
                let j = choose|j: int| 0 <= j < s.len() && s[j] == r;
                assert(j != i);
                assert(t[j] == r);
            }
        }
    } else {
        items.insert(i, v);
        let ghost t = records(items@);
        assert(t =~= s.insert(i as int, vr));
        assert forall|a: int| 0 <= a < s.len() implies !((#[trigger] s[a]).key == vr.key
            && s[a].seqno == vr.seqno) by {
            assert(s[a] == items@[if a < i { a } else { a + 1 }]@);
            if s[a].key == vr.key && s[a].seqno == vr.seqno {
                if a < i {
                    assert(internal_lt(s[a], vr));
                    lemma_key_lt_irrefl(vr.key);
                } else if a > i {
                    assert(internal_lt(s[i as int], s[a]));
                }
            }
        }
        assert forall|a: int, b: int| 0 <= a < b < t.len() implies internal_lt(
            #[trigger] t[a],
            #[trigger] t[b],
        ) by {
            if b < i {
                assert(internal_lt(s[a], s[b]));
            } else if b == i {
                assert(internal_lt(s[a], vr));
            } else if a == i {
                let bb = b - 1;
                assert(t[b] == s[bb]);
                assert(!internal_lt(s[bb], vr));
                lemma_key_total(s[bb].key, vr.key);
                if s[bb].key == vr.key {
                    assert(s[bb].seqno != vr.seqno);
                } else if key_lt(s[bb].key, vr.key) {
                } else {
                    lemma_key_lt_asym(vr.key, s[bb].key);
                }
            } else if a < i {
                assert(internal_lt(s[a], s[b - 1]));
            } else {
                assert(internal_lt(s[a - 1], s[b - 1]));
            }
        }
        assert forall|r: Record| t.contains(r) <==> (r == vr || (s.contains(r) && !(r.key
            == vr.key && r.seqno == vr.seqno))) by {
            if t.contains(r) {
                let j = choose|j: int| 0 <= j < t.len() && t[j] == r;
                if j < i {
                    assert(s[j] == r);
                } else if j > i {
                    assert(s[j - 1] == r);
                }
            }
            if r == vr {
                assert(t[i as int] == r);
            } else if s.contains(r) {
                let j = choose|j: int| 0 <= j < s.len() && s[j] == r;
                if j < i {
                    assert(t[j] == r);
                } else {
                    assert(t[j + 1] == r);
                }
            }
        }
        let ghost ov = old(items)@;
        assert(!exists|j: int| 0 <= j < ov.len() && (#[trigger] ov[j]).key@ == vr.key && ov[j].seqno == vr.seqno) by {
            if exists|j: int| 0 <= j < ov.len() && (#[trigger] ov[j]).key@ == vr.key && ov[j].seqno == vr.seqno {
                let j = choose|j: int| 0 <= j < ov.len() && (#[trigger] ov[j]).key@ == vr.key && ov[j].seqno == vr.seqno;
                assert(s[j] == ov[j]@);
            }
        }
    }
}

} // verus!
