use vstd::prelude::*;

verus! {

/// What to do with a journal found on open.
#[derive(Debug, PartialEq, Eq, Structural)]
pub enum JournalAction {
    /// It is empty: delete it.
    Remove,
    /// It backs the active memtable: replay it and keep writing to it.
    Activate,
    /// Replay it into a level-0 segment, then delete it.
    Flush,
}

/// Decides the fate of a journal of `size` bytes. One that is not marked for
/// flushing becomes the active journal when none is yet and it is under the
/// memtable limit; any other non-empty journal is flushed.
pub fn classify_journal(size: u64, flush_marked: bool, has_active: bool, max_memtable_size: u32) -> (r:
    JournalAction)
    ensures
        size == 0 ==> r == JournalAction::Remove,
        size > 0 && !flush_marked && !has_active && size < max_memtable_size ==> r
            == JournalAction::Activate,
        size > 0 && (flush_marked || has_active || size >= max_memtable_size) ==> r
            == JournalAction::Flush,
{
    if size == 0 {
        JournalAction::Remove
    } else if !flush_marked && !has_active && size < max_memtable_size as u64 {
        JournalAction::Activate
    } else {
        JournalAction::Flush
    }
}

/// Whether `ids` holds `id`.
pub fn contains_id(ids: &Vec<u64>, id: u64) -> (r: bool)
    ensures
        r == ids@.contains(id),
{
    let mut i: usize = 0;
    while i < ids.len()
        invariant
            0 <= i <= ids@.len(),
            forall|j: int| 0 <= j < i ==> ids@[j] != id,
        decreases ids@.len() - i,
    {
        if ids[i] == id {
            return true;
        }
        i = i + 1;
    }
    false
}

/// Segment folders found on disk that the manifest does not list: they are
/// left over from an unfinished flush or compaction and are deleted on open.
pub fn orphan_segments(listed: &Vec<u64>, found: &Vec<u64>) -> (r: Vec<u64>)
    ensures
        forall|x: u64| r@.contains(x) <==> (found@.contains(x) && !listed@.contains(x)),
{
    let mut out: Vec<u64> = Vec::new();
    let mut i: usize = 0;
    while i < found.len()
        invariant
            0 <= i <= found@.len(),
            forall|x: u64| out@.contains(x) <==> (found@.subrange(0, i as int).contains(x) && !listed@.contains(x)),
        decreases found@.len() - i,
    {
        let id = found[i];
        let ghost o0 = out@;
        if !contains_id(listed, id) {
            out.push(id);
        }
        assert forall|x: u64| out@.contains(x) <==> (found@.subrange(0, i + 1).contains(x) && !listed@.contains(x)) by {
            if found@.subrange(0, i as int).contains(x) {
                let j = choose|j: int| 0 <= j < i && #[trigger] found@.subrange(0, i as int)[j] == x;
                assert(found@.subrange(0, i + 1)[j] == x);
            }
            if found@.subrange(0, i + 1).contains(x) && x != id {
                let j = choose|j: int| 0 <= j < i + 1 && #[trigger] found@.subrange(0, i + 1)[j] == x;
                assert(found@.subrange(0, i as int)[j] == x);
            }
            if x == id {
                assert(found@.subrange(0, i + 1)[i as int] == x);
            }
            if out@.contains(x) && x != id {
                let j = choose|j: int| 0 <= j < out@.len() && out@[j] == x;
                if j < o0.len() {
                    assert(o0[j] == x);
                }
            }
            if o0.contains(x) {
                let j = choose|j: int| 0 <= j < o0.len() && o0[j] == x;
                assert(out@[j] == x);
            }
            if x == id && !listed@.contains(x) {
                assert(out@[out@.len() - 1] == x);
            }
        }
        i = i + 1;
    }
    assert(found@.subrange(0, found@.len() as int) =~= found@);
    out
}

/// Whether every listed segment was found; a manifest naming a missing
/// segment cannot be recovered.
pub fn all_listed_found(listed: &Vec<u64>, found: &Vec<u64>) -> (r: bool)
    ensures
        r == forall|x: u64| listed@.contains(x) ==> found@.contains(x),
{
    let mut i: usize = 0;
    while i < listed.len()
        invariant
            0 <= i <= listed@.len(),
            forall|j: int| 0 <= j < i ==> found@.contains(#[trigger] listed@[j]),
        decreases listed@.len() - i,
    {
        if !contains_id(found, listed[i]) {
            assert(listed@.contains(listed@[i as int]));
            return false;
        }
        i = i + 1;
    }
    assert forall|x: u64| listed@.contains(x) implies found@.contains(x) by {
        let j = choose|j: int| 0 <= j < listed@.len() && listed@[j] == x;
        assert(found@.contains(listed@[j]));
    }
    true
}

} // verus!
