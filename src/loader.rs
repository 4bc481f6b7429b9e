use vstd::prelude::*;
use crate::index::{IndexBlock, IndexBlockIndex, IndexEntry};
use crate::index_block::{deserialize_index_block, parse_index_block};
use crate::tree::Error;

verus! {

/// Loads the index block that `entry` points to in `file`: from `cache`
/// where it is cached under `(segment_id, entry.start_key)`, else read from
/// the file and then cached.
pub fn load_index_block(
    cache: &mut IndexBlockIndex,
    segment_id: u64,
    entry: &IndexEntry,
    file: &[u8],
) -> (r: Result<IndexBlock, Error>)
    requires
        old(cache).wf(),
    ensures
        final(cache).wf(),
        final(cache).capacity == old(cache).capacity,
        old(cache).cached(segment_id, entry.start_key@) is Some ==> r.is_ok() && Some(r.unwrap().entries())
            == old(cache).cached(segment_id, entry.start_key@),
        old(cache).cached(segment_id, entry.start_key@) is None ==> {
            let end = entry.offset + entry.size;
            if end > file@.len() {
                r == Err::<IndexBlock, Error>(Error::Deserialize)
            } else {
                match parse_index_block(file@.subrange(entry.offset as int, end)) {
                    Ok(es) => r.is_ok() && r.unwrap().entries() == es && final(cache).cached(
                        segment_id,
                        entry.start_key@,
                    ) == Some(es),
                    Err(e) => r == Err::<IndexBlock, Error>(e),
                }
            }
        },
{
    match cache.get(segment_id, entry.start_key.as_slice()) {
        Some(block) => Ok(block),
        None => {
            if entry.offset > file.len() as u64 || file.len() as u64 - entry.offset < entry.size as u64 {
                return Err(Error::Deserialize);
            }
            let start = entry.offset as usize;
            let end = start + entry.size as usize;
            let part = crate::codec::copy_range(file, start, end);
            match deserialize_index_block(part.as_slice()) {
                Ok(items) => {
                    let block = IndexBlock { items };
                    let copy = block.duplicate();
                    let key = crate::codec::copy_range(entry.start_key.as_slice(), 0, entry.start_key.len());
                    assert(key@ =~= entry.start_key@);
                    cache.insert(segment_id, key, block);
                    Ok(copy)
                },
                Err(e) => Err(e),
            }
        },
    }
}

} // verus!
