use vstd::prelude::*;
use crate::run::records;
use crate::index::IndexEntry;
use crate::value::{record_fits, Record, Value};

verus! {

/// Bytes of a record in a block.
pub open spec fn item_bytes(r: Record) -> int {
    15int + r.key.len() + r.value.len()
}

/// Bytes of a block of `rs`: count, items and checksum.
pub open spec fn block_bytes(rs: Seq<Record>) -> int
    decreases rs.len(),
{
    if rs.len() == 0 {
        8
    } else {
        block_bytes(rs.drop_last()) + item_bytes(rs.last())
    }
}

/// The runs of `chunks` one after another.
pub open spec fn concat(chunks: Seq<Seq<Record>>) -> Seq<Record>
    decreases chunks.len(),
{
    if chunks.len() == 0 {
        Seq::empty()
    } else {
        concat(chunks.drop_last()) + chunks.last()
    }
}

pub open spec fn chunk_records(chunks: Seq<Vec<Value>>) -> Seq<Seq<Record>> {
    chunks.map_values(|c: Vec<Value>| records(c@))
}

/// Splits records into data blocks, in order. A block takes records while
/// its encoded size stays within `block_size`; it holds at least one, so a
/// record larger than `block_size` has a block of its own.
pub fn pack_blocks(items: &Vec<Value>, block_size: u64) -> (r: Vec<Vec<Value>>)
    requires
        block_size <= u32::MAX,
        forall|i: int| 0 <= i < items@.len() ==> record_fits((#[trigger] items@[i])@),
    ensures
        concat(chunk_records(r@)) == records(items@),
        forall|k: int| 0 <= k < r@.len() ==> (#[trigger] r@[k])@.len() > 0,
        forall|k: int| 0 <= k < r@.len() && (#[trigger] r@[k])@.len() >= 2 ==> block_bytes(records(r@[k]@)) <= block_size,
        forall|k: int| 0 <= k < r@.len() - 1 ==> block_bytes(records((#[trigger] r@[k])@)) + item_bytes(r@[k + 1]@[0]@) > block_size,
{
    let ghost all = records(items@);
    let mut chunks: Vec<Vec<Value>> = Vec::new();
    let mut cur: Vec<Value> = Vec::new();
    let mut cur_bytes: u64 = 8;
    let mut i: usize = 0;
    while i < items.len()
        invariant
            all == records(items@),
            block_size <= u32::MAX,
            forall|q: int| 0 <= q < items@.len() ==> record_fits((#[trigger] items@[q])@),
            0 <= i <= items@.len(),
            concat(chunk_records(chunks@)) + records(cur@) == all.subrange(0, i as int),
            cur_bytes == block_bytes(records(cur@)),
            cur@.len() >= 2 ==> cur_bytes <= block_size,
            cur_bytes <= block_size + 8 + 4294967295,
            i > 0 ==> cur@.len() > 0,
            forall|k: int| 0 <= k < chunks@.len() ==> (#[trigger] chunks@[k])@.len() > 0,
            forall|k: int| 0 <= k < chunks@.len() && (#[trigger] chunks@[k])@.len() >= 2 ==> block_bytes(records(chunks@[k]@)) <= block_size,
            forall|k: int| 0 <= k < chunks@.len() - 1 ==> block_bytes(records((#[trigger] chunks@[k])@)) + item_bytes(chunks@[k + 1]@[0]@) > block_size,
            chunks@.len() > 0 && cur@.len() > 0 ==> block_bytes(records(chunks@[chunks@.len() - 1]@)) + item_bytes(cur@[0]@) > block_size,
        decreases items@.len() - i,
    {
        let x = items[i].duplicate();
        let size: u64 = 15u64 + x.key.len() as u64 + x.value.len() as u64;
        assert(size == item_bytes(x@));
        if cur.len() > 0 && cur_bytes + size > block_size {
            let ghost c0 = chunks@;
            let full = cur;
            cur = Vec::new();
            chunks.push(full);
            proof {
                assert(chunk_records(chunks@).drop_last() =~= chunk_records(c0));
                assert(chunk_records(chunks@).last() == records(full@));
                assert forall|k: int| 0 <= k < chunks@.len() - 1 implies block_bytes(records((#[trigger] chunks@[k])@)) + item_bytes(chunks@[k + 1]@[0]@) > block_size by {
                    assert(chunks@[k] == c0[k]);
                    if k < c0.len() - 1 {
                        assert(chunks@[k + 1] == c0[k + 1]);
                    }
                }
                assert(records(cur@) =~= Seq::<Record>::empty());
                assert(concat(chunk_records(chunks@)) + records(cur@) =~= concat(chunk_records(c0)) + records(full@));
            }
            cur_bytes = 8;
        }
        let ghost r0 = records(cur@);
        let ghost c_last = if chunks@.len() > 0 { chunks@[chunks@.len() - 1]@ } else { Seq::empty() };
        let ghost first_before = if cur@.len() > 0 { cur@[0]@ } else { x@ };
        cur.push(x);
        proof {
            assert(records(cur@) =~= r0.push(x@));
            assert(records(cur@).drop_last() =~= r0);
            assert(records(cur@).last() == x@);
            assert(block_bytes(records(cur@)) == block_bytes(r0) + item_bytes(x@));
            assert(cur@[0]@ == first_before);
            assert(all.subrange(0, i + 1) =~= all.subrange(0, i as int).push(all[i as int]));
            assert(all[i as int] == items@[i as int]@);
            assert(concat(chunk_records(chunks@)) + records(cur@) =~= (concat(chunk_records(chunks@)) + r0).push(x@));
        }
        cur_bytes = cur_bytes + size;
        i = i + 1;
    }
    if cur.len() > 0 {
        let ghost c0 = chunks@;
        let full = cur;
        chunks.push(full);
        proof {
            assert(chunk_records(chunks@).drop_last() =~= chunk_records(c0));
            assert(chunk_records(chunks@).last() == records(full@));
            assert forall|k: int| 0 <= k < chunks@.len() - 1 implies block_bytes(records((#[trigger] chunks@[k])@)) + item_bytes(chunks@[k + 1]@[0]@) > block_size by {
                assert(chunks@[k] == c0[k]);
                if k < c0.len() - 1 {
                    assert(chunks@[k + 1] == c0[k + 1]);
                }
            }
            assert(concat(chunk_records(chunks@)) =~= concat(chunk_records(c0)) + records(full@));
        }
    } else {
        assert(records(cur@) =~= Seq::<Record>::empty());
        assert(concat(chunk_records(chunks@)) + Seq::<Record>::empty() =~= concat(chunk_records(chunks@)));
    }
    assert(all.subrange(0, items@.len() as int) =~= all);
    chunks
}


/// Bytes of the first `k` blocks.
pub open spec fn blocks_bytes(chunks: Seq<Seq<Record>>, k: int) -> int
    decreases k,
{
    if k <= 0 {
        0
    } else {
        blocks_bytes(chunks, k - 1) + block_bytes(chunks[k - 1])
    }
}

proof fn lemma_block_bytes_bound(rs: Seq<Record>)
    ensures
        block_bytes(rs) >= 8,
        rs.len() == 1 && record_fits(rs[0]) ==> block_bytes(rs) <= u32::MAX,
    decreases rs.len(),
{
    if rs.len() > 0 {
        lemma_block_bytes_bound(rs.drop_last());
        if rs.len() == 1 {
            assert(rs.drop_last().len() == 0);
        }
    }
}

/// Bytes of a block of `items`.
fn block_size_of(items: &Vec<Value>) -> (r: u64)
    requires
        items@.len() > 0,
        forall|i: int| 0 <= i < items@.len() ==> record_fits((#[trigger] items@[i])@),
        items@.len() == 1 || block_bytes(records(items@)) <= u32::MAX,
    ensures
        r == block_bytes(records(items@)),
        r <= u32::MAX,
{
    let mut total: u64 = 8;
    let mut i: usize = 0;
    let ghost rs = records(items@);
    proof {
        lemma_block_bytes_bound(rs);
    }
    while i < items.len()
        invariant
            rs == records(items@),
            0 <= i <= items@.len(),
            forall|q: int| 0 <= q < items@.len() ==> record_fits((#[trigger] items@[q])@),
            total == block_bytes(rs.subrange(0, i as int)),
            items@.len() == 1 || block_bytes(rs) <= u32::MAX,
            block_bytes(rs.subrange(0, i as int)) <= block_bytes(rs) || items@.len() == 1,
        decreases items@.len() - i,
    {
        assert(rs.subrange(0, i + 1).drop_last() =~= rs.subrange(0, i as int));
        assert(rs.subrange(0, i + 1).last() == items@[i as int]@);
        proof {
            lemma_prefix_bytes(rs, i + 1);
            if items@.len() == 1 {
                assert(rs.subrange(0, 1) =~= rs);
                lemma_block_bytes_bound(rs);
            }
        }
        total = total + 15u64 + items[i].key.len() as u64 + items[i].value.len() as u64;
        i = i + 1;
    }
    assert(rs.subrange(0, i as int) =~= rs);
    proof {
        lemma_block_bytes_bound(rs);
    }
    total
}

proof fn lemma_prefix_bytes(rs: Seq<Record>, i: int)
    requires
        0 <= i <= rs.len(),
    ensures
        block_bytes(rs.subrange(0, i)) <= block_bytes(rs),
    decreases rs.len() - i,
{
    if i < rs.len() {
        lemma_prefix_bytes(rs, i + 1);
        assert(rs.subrange(0, i + 1).drop_last() =~= rs.subrange(0, i));
    } else {
        assert(rs.subrange(0, i) =~= rs);
    }
}

/// Index entries of packed blocks laid out one after another from `base`:
/// each block's position, size and first key. `None` where a position
/// would pass `u64::MAX`.
pub fn block_index(chunks: &Vec<Vec<Value>>, base: u64, block_size: u64) -> (r: Option<Vec<IndexEntry>>)
    requires
        block_size <= u32::MAX,
        forall|k: int| 0 <= k < chunks@.len() ==> (#[trigger] chunks@[k])@.len() > 0,
        forall|k: int| 0 <= k < chunks@.len() && (#[trigger] chunks@[k])@.len() >= 2 ==> block_bytes(records(chunks@[k]@)) <= block_size,
        forall|k: int, i: int| 0 <= k < chunks@.len() && 0 <= i < chunks@[k]@.len() ==> record_fits((#[trigger] chunks@[k]@[i])@),
    ensures
        r.is_some() == (base + blocks_bytes(chunk_records(chunks@), chunks@.len() as int) <= u64::MAX),
        r.is_some() ==> r.unwrap()@.len() == chunks@.len() && forall|k: int| 0 <= k < chunks@.len() ==> {
            let e = #[trigger] r.unwrap()@[k];
            &&& e.offset == base + blocks_bytes(chunk_records(chunks@), k)
            &&& e.size == block_bytes(records(chunks@[k]@))
            &&& e.start_key@ == chunks@[k]@[0].key@
        },
{
    let ghost cr = chunk_records(chunks@);
    let mut out: Vec<IndexEntry> = Vec::new();
    let mut offset: u64 = base;
    let mut k: usize = 0;
    while k < chunks.len()
        invariant
            cr == chunk_records(chunks@),
            block_size <= u32::MAX,
            0 <= k <= chunks@.len(),
            forall|j: int| 0 <= j < chunks@.len() ==> (#[trigger] chunks@[j])@.len() > 0,
            forall|j: int| 0 <= j < chunks@.len() && (#[trigger] chunks@[j])@.len() >= 2 ==> block_bytes(records(chunks@[j]@)) <= block_size,
            forall|j: int, i: int| 0 <= j < chunks@.len() && 0 <= i < chunks@[j]@.len() ==> record_fits((#[trigger] chunks@[j]@[i])@),
            offset == base + blocks_bytes(cr, k as int),
            out@.len() == k,
            forall|j: int| 0 <= j < k ==> {
                let e = #[trigger] out@[j];
                &&& e.offset == base + blocks_bytes(cr, j)
                &&& e.size == block_bytes(records(chunks@[j]@))
                &&& e.start_key@ == chunks@[j]@[0].key@
            },
        decreases chunks@.len() - k,
    {
        let c = &chunks[k];
        assert forall|i: int| 0 <= i < c@.len() implies record_fits((#[trigger] c@[i])@) by {
            assert(record_fits(chunks@[k as int]@[i]@));
        }
        let size = block_size_of(c);
        assert(cr[k as int] == records(chunks@[k as int]@));
        let key = crate::codec::copy_range(c[0].key.as_slice(), 0, c[0].key.len());
        assert(key@ =~= c@[0].key@);
        out.push(IndexEntry { offset, size: size as u32, start_key: key });
        if offset > u64::MAX - size {
            proof {
                lemma_blocks_bytes_mono(cr, k + 1, chunks@.len() as int);
            }
            return None;
        }
        offset = offset + size;
        k = k + 1;
    }
    Some(out)
}

proof fn lemma_blocks_bytes_mono(chunks: Seq<Seq<Record>>, a: int, b: int)
    requires
        0 <= a <= b <= chunks.len(),
    ensures
        blocks_bytes(chunks, a) <= blocks_bytes(chunks, b),
    decreases b - a,
{
    if a < b {
        lemma_blocks_bytes_mono(chunks, a, b - 1);
        lemma_block_bytes_bound(chunks[b - 1]);
    }
}

} // verus!
