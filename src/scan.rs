use vstd::prelude::*;
use crate::order::{
    compare_keys, has_prefix, key_le, key_lt, lemma_key_lt_asym, lemma_key_lt_trans, lemma_key_total,
    starts_with,
};

verus! {

/// A key-value pair handed out by a scan.
pub type KvPair = (Vec<u8>, Vec<u8>);

/// One end of a key range.
pub enum KeyBound {
    Included(Vec<u8>),
    Excluded(Vec<u8>),
    Unbounded,
}

/// What a scan selects: keys within two bounds, or keys with a prefix.
pub enum KeyFilter {
    Range(KeyBound, KeyBound),
    Prefix(Vec<u8>),
}

pub open spec fn above_lower(b: KeyBound, k: Seq<u8>) -> bool {
    match b {
        KeyBound::Included(x) => key_le(x@, k),
        KeyBound::Excluded(x) => key_lt(x@, k),
        KeyBound::Unbounded => true,
    }
}

pub open spec fn below_upper(b: KeyBound, k: Seq<u8>) -> bool {
    match b {
        KeyBound::Included(x) => key_le(k, x@),
        KeyBound::Excluded(x) => key_lt(k, x@),
        KeyBound::Unbounded => true,
    }
}

/// The filter selects `k`.
pub open spec fn selects(f: KeyFilter, k: Seq<u8>) -> bool {
    match f {
        KeyFilter::Range(lo, hi) => above_lower(lo, k) && below_upper(hi, k),
        KeyFilter::Prefix(p) => has_prefix(k, p@),
    }
}

/// Keys strictly ascending.
pub open spec fn keys_ascending(s: Seq<KvPair>) -> bool {
    forall|i: int, j: int| 0 <= i < j < s.len() ==> key_lt((#[trigger] s[i]).0@, (#[trigger] s[j]).0@)
}

/// Every pair of `s` is a mapping of `m`.
pub open spec fn pairs_of(m: Map<Seq<u8>, Seq<u8>>, s: Seq<KvPair>) -> bool {
    forall|i: int| 0 <= i < s.len() ==> m.contains_key((#[trigger] s[i]).0@) && m[s[i].0@] == s[i].1@
}

/// Some pair of `s` has key `k`.
pub open spec fn lists_key(s: Seq<KvPair>, k: Seq<u8>) -> bool {
    exists|i: int| 0 <= i < s.len() && (#[trigger] s[i]).0@ == k
}

/// `s` lists, in key order, exactly the mappings of `m` whose key `f` selects.
pub open spec fn is_scan(m: Map<Seq<u8>, Seq<u8>>, f: KeyFilter, s: Seq<KvPair>) -> bool {
    &&& keys_ascending(s)
    &&& pairs_of(m, s)
    &&& forall|i: int| 0 <= i < s.len() ==> selects(f, (#[trigger] s[i]).0@)
    &&& forall|k: Seq<u8>| m.contains_key(k) && selects(f, k) ==> lists_key(s, k)
}

/// The filter that selects every key.
pub open spec fn everything() -> KeyFilter {
    KeyFilter::Range(KeyBound::Unbounded, KeyBound::Unbounded)
}

/// Whether the filter selects `k`.
pub fn filter_selects(f: &KeyFilter, k: &[u8]) -> (r: bool)
    ensures
        r == selects(*f, k@),
{
    match f {
        KeyFilter::Range(lo, hi) => {
            let above = match lo {
                KeyBound::Included(x) => !matches!(
                    compare_keys(k, x.as_slice()),
                    core::cmp::Ordering::Less
                ),
                KeyBound::Excluded(x) => matches!(
                    compare_keys(k, x.as_slice()),
                    core::cmp::Ordering::Greater
                ),
                KeyBound::Unbounded => true,
            };
            let below = match hi {
                KeyBound::Included(x) => !matches!(
                    compare_keys(k, x.as_slice()),
                    core::cmp::Ordering::Greater
                ),
                KeyBound::Excluded(x) => matches!(
                    compare_keys(k, x.as_slice()),
                    core::cmp::Ordering::Less
                ),
                KeyBound::Unbounded => true,
            };
            proof {
                match lo {
                    KeyBound::Included(x) => {
                        lemma_key_total(k@, x@);
                        if key_lt(k@, x@) {
                            lemma_key_lt_asym(k@, x@);
                        }
                    },
                    _ => {},
                }
                match hi {
                    KeyBound::Included(x) => {
                        lemma_key_total(k@, x@);
                        if key_lt(x@, k@) {
                            lemma_key_lt_asym(x@, k@);
                        }
                    },
                    _ => {},
                }
            }
            above && below
        },
        KeyFilter::Prefix(p) => starts_with(k, p.as_slice()),
    }
}

/// First index whose key is not below `k`, in pairs with ascending keys.
pub fn pair_lower_bound(s: &Vec<KvPair>, k: &[u8]) -> (r: usize)
    requires
        keys_ascending(s@),
    ensures
        r <= s@.len(),
        forall|i: int| 0 <= i < r ==> key_lt((#[trigger] s@[i]).0@, k@),
        forall|i: int| r <= i < s@.len() ==> !key_lt((#[trigger] s@[i]).0@, k@),
{
    let mut lo: usize = 0;
    let mut hi: usize = s.len();
    while lo < hi
        invariant
            0 <= lo <= hi <= s@.len(),
            keys_ascending(s@),
            forall|i: int| 0 <= i < lo ==> key_lt((#[trigger] s@[i]).0@, k@),
            forall|i: int| hi <= i < s@.len() ==> !key_lt((#[trigger] s@[i]).0@, k@),
        decreases hi - lo,
    {
        let mid = lo + (hi - lo) / 2;
        if matches!(compare_keys(s[mid].0.as_slice(), k), core::cmp::Ordering::Less) {
            assert forall|i: int| 0 <= i < mid + 1 implies key_lt((#[trigger] s@[i]).0@, k@) by {
                if lo <= i < mid {
                    lemma_key_lt_trans(s@[i].0@, s@[mid as int].0@, k@);
                }
            }
            lo = mid + 1;
        } else {
            assert forall|i: int| mid <= i < s@.len() implies !key_lt((#[trigger] s@[i]).0@, k@) by {
                if mid < i < hi && key_lt(s@[i].0@, k@) {
                    lemma_key_lt_trans(s@[mid as int].0@, s@[i].0@, k@);
                }
            }
            hi = mid;
        }
    }
    lo
}

/// Adds a pair whose key is not yet listed, keeping keys ascending.
pub fn insert_pair(s: &mut Vec<KvPair>, p: KvPair)
    requires
        keys_ascending(old(s)@),
        !lists_key(old(s)@, p.0@),
    ensures
        keys_ascending(final(s)@),
        forall|x: KvPair| final(s)@.contains(x) <==> (x == p || old(s)@.contains(x)),
        forall|k: Seq<u8>| lists_key(final(s)@, k) <==> (k == p.0@ || lists_key(old(s)@, k)),
{
    let ghost s0 = s@;
    let ghost pk = p.0@;
    let pos = pair_lower_bound(s, p.0.as_slice());
    let ghost pp = p;
    s.insert(pos, p);
    let ghost s1 = s@;
    assert(s1 =~= s0.insert(pos as int, pp));
    assert forall|j: int| pos <= j < s0.len() implies key_lt(pk, (#[trigger] s0[j]).0@) by {
        lemma_key_total(pk, s0[j].0@);
        assert(s0[j].0@ != pk);
    }
    assert forall|a: int, b: int| 0 <= a < b < s1.len() implies key_lt(
        (#[trigger] s1[a]).0@,
        (#[trigger] s1[b]).0@,
    ) by {
        if b < pos {
        } else if b == pos {
        } else if a == pos {
            assert(s1[b] == s0[b - 1]);
        } else if a < pos {
            assert(s1[b] == s0[b - 1]);
        } else {
            assert(s1[a] == s0[a - 1]);
            assert(s1[b] == s0[b - 1]);
        }
    }
    assert forall|x: KvPair| s1.contains(x) <==> (x == pp || s0.contains(x)) by {
        if s1.contains(x) {
            let j = choose|j: int| 0 <= j < s1.len() && s1[j] == x;
            if j < pos {
                assert(s0[j] == x);
            } else if j > pos {
                assert(s0[j - 1] == x);
            }
        }
        if x == pp {
            assert(s1[pos as int] == x);
        } else if s0.contains(x) {
            let j = choose|j: int| 0 <= j < s0.len() && s0[j] == x;
            if j < pos {
                assert(s1[j] == x);
            } else {
                assert(s1[j + 1] == x);
            }
        }
    }
    assert forall|k: Seq<u8>| lists_key(s1, k) <==> (k == pk || lists_key(s0, k)) by {
        if lists_key(s1, k) {
            let j = choose|j: int| 0 <= j < s1.len() && (#[trigger] s1[j]).0@ == k;
            if j < pos {
                assert(s0[j].0@ == k);
            } else if j > pos {
                assert(s0[j - 1].0@ == k);
            }
        }
        if k == pk {
            assert(s1[pos as int].0@ == k);
        } else if lists_key(s0, k) {
            let j = choose|j: int| 0 <= j < s0.len() && (#[trigger] s0[j]).0@ == k;
            if j < pos {
                assert(s1[j].0@ == k);
            } else {
                assert(s1[j + 1].0@ == k);
            }
        }
    }
}

/// The pairs of a full scan that `f` selects.
pub(crate) fn select(all: Vec<KvPair>, f: &KeyFilter, m: Ghost<Map<Seq<u8>, Seq<u8>>>) -> (r: Vec<KvPair>)
    requires
        is_scan(m@, everything(), all@),
    ensures
        is_scan(m@, *f, r@),
{
    let mut out: Vec<KvPair> = Vec::new();
    let mut rest = all;
    let ghost whole = rest@;
    let mut i: usize = 0;
    let n = rest.len();
    proof {
        assert(rest@ == whole);
    }
    while rest.len() > 0
        invariant
            n == whole.len(),
            is_scan(m@, everything(), whole),
            rest@ == whole.subrange(i as int, n as int),
            i <= n,
            keys_ascending(out@),
            pairs_of(m@, out@),
            forall|a: int| 0 <= a < out@.len() ==> selects(*f, (#[trigger] out@[a]).0@),
            forall|a: int, b: int|
                0 <= a < out@.len() && i <= b < n ==> key_lt(
                    (#[trigger] out@[a]).0@,
                    (#[trigger] whole[b]).0@,
                ),
            forall|b: int|
                0 <= b < i && selects(*f, (#[trigger] whole[b]).0@) ==> lists_key(out@, whole[b].0@),
        decreases rest@.len(),
    {
        let x = rest.remove(0);
        assert(x == whole[i as int]);
        assert(rest@ =~= whole.subrange(i + 1, n as int));
        let ghost xk = x.0@;
        if filter_selects(f, x.0.as_slice()) {
            let ghost o0 = out@;
            out.push(x);
            assert forall|a: int, b: int| 0 <= a < out@.len() && i + 1 <= b < n implies key_lt(
                (#[trigger] out@[a]).0@,
                (#[trigger] whole[b]).0@,
            ) by {
                if a < o0.len() {
                    assert(key_lt(o0[a].0@, whole[b].0@));
                } else {
                    assert(key_lt(whole[i as int].0@, whole[b].0@));
                }
            }
            assert forall|b: int| 0 <= b < i + 1 && selects(*f, (#[trigger] whole[b]).0@) implies lists_key(
                out@,
                whole[b].0@,
            ) by {
                if b < i {
                    let a = choose|a: int| 0 <= a < o0.len() && (#[trigger] o0[a]).0@ == whole[b].0@;
                    assert(out@[a] == o0[a]);
                } else {
                    assert(out@[o0.len() as int].0@ == xk);
                }
            }
        }
        i = i + 1;
    }
    assert forall|k: Seq<u8>| m@.contains_key(k) && selects(*f, k) implies lists_key(out@, k) by {
        assert(selects(everything(), k));
        let b = choose|b: int| 0 <= b < whole.len() && (#[trigger] whole[b]).0@ == k;
    }
    out
}

} // verus!
