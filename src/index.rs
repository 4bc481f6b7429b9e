use vstd::prelude::*;
use crate::codec::{
    be16, be32, be64, copy_range, de16, de32, de64, get_u16, get_u32, get_u64, lemma_be16,
    lemma_be32, lemma_be64, put_bytes, put_u16, put_u32, put_u64,
};
use crate::order::{
    compare_keys, has_prefix, key_le, key_lt, lemma_key_le_lt_trans, lemma_key_lt_asym,
    lemma_key_lt_trans, lemma_key_total, starts_with,
};
use crate::value::MAX_KEY_LEN;

verus! {

/// The content of an [`IndexEntry`].
pub struct EntryView {
    pub offset: u64,
    pub size: u32,
    pub start_key: Seq<u8>,
}

/// Points to a block in a file: its position, its size and its first key.
#[derive(Clone, Debug)]
pub struct IndexEntry {
    /// Position of the block in the file.
    pub offset: u64,
    /// Size of the block in bytes.
    pub size: u32,
    /// Key of the first item in the block.
    pub start_key: Vec<u8>,
}

impl View for IndexEntry {
    type V = EntryView;

    open spec fn view(&self) -> EntryView {
        EntryView { offset: self.offset, size: self.size, start_key: self.start_key@ }
    }
}

/// `offset: u64 | size: u32 | key_len: u16 | key`, big-endian.
pub open spec fn encode_entry(e: EntryView) -> Seq<u8> {
    be64(e.offset) + be32(e.size) + be16(e.start_key.len() as u16) + e.start_key
}

/// Reads an index entry at the start of `s`, with the number of bytes it takes.
pub open spec fn parse_entry(s: Seq<u8>) -> Option<(EntryView, int)> {
    if s.len() < 14 {
        None
    } else {
        let klen = de16(s.subrange(12, 14)) as int;
        if s.len() < 14 + klen {
            None
        } else {
            Some(
                (
                    EntryView {
                        offset: de64(s.subrange(0, 8)),
                        size: de32(s.subrange(8, 12)),
                        start_key: s.subrange(14, 14 + klen),
                    },
                    14 + klen,
                ),
            )
        }
    }
}

/// Encoding an index entry and reading it back gives the entry, whatever follows it.
pub proof fn lemma_entry_round_trip(e: EntryView, rest: Seq<u8>)
    requires
        e.start_key.len() <= MAX_KEY_LEN,
    ensures
        parse_entry(encode_entry(e) + rest) == Some((e, encode_entry(e).len() as int)),
{
    let s = encode_entry(e) + rest;
    let klen = e.start_key.len() as int;
    lemma_be64(e.offset);
    lemma_be32(e.size);
    lemma_be16(e.start_key.len() as u16);
    assert(s.subrange(0, 8) =~= be64(e.offset));
    assert(s.subrange(8, 12) =~= be32(e.size));
    assert(s.subrange(12, 14) =~= be16(e.start_key.len() as u16));
    assert(s.subrange(14, 14 + klen) =~= e.start_key);
}

impl IndexEntry {
    /// A copy with the same content.
    pub fn duplicate(&self) -> (r: IndexEntry)
        ensures
            r@ == self@,
    {
        let k = copy_range(self.start_key.as_slice(), 0, self.start_key.len());
        assert(k@ =~= self.start_key@);
        IndexEntry { offset: self.offset, size: self.size, start_key: k }
    }

    /// Appends the encoding of this entry to `out`.
    pub fn serialize(&self, out: &mut Vec<u8>)
        requires
            self.start_key@.len() <= MAX_KEY_LEN,
        ensures
            final(out)@ == old(out)@ + encode_entry(self@),
    {
        put_u64(out, self.offset);
        put_u32(out, self.size);
        put_u16(out, self.start_key.len() as u16);
        put_bytes(out, self.start_key.as_slice());
        assert(final(out)@ =~= old(out)@ + encode_entry(self@));
    }

    /// Reads an entry at `pos`; returns it with the position after it.
    pub fn deserialize(buf: &[u8], pos: usize) -> (r: Option<(IndexEntry, usize)>)
        requires
            pos <= buf@.len(),
        ensures
            match parse_entry(buf@.subrange(pos as int, buf@.len() as int)) {
                Some((e, n)) => r.is_some() && r.unwrap().0@ == e && r.unwrap().1 == pos + n,
                None => r.is_none(),
            },
    {
        let ghost s = buf@.subrange(pos as int, buf@.len() as int);
        let avail = buf.len() - pos;
        if avail < 14 {
            return None;
        }
        let offset = get_u64(buf, pos);
        assert(buf@.subrange(pos as int, pos + 8) =~= s.subrange(0, 8));
        let size = get_u32(buf, pos + 8);
        assert(buf@.subrange(pos + 8, pos + 12) =~= s.subrange(8, 12));
        let klen = get_u16(buf, pos + 12) as usize;
        assert(buf@.subrange(pos + 12, pos + 14) =~= s.subrange(12, 14));
        if avail - 14 < klen {
            return None;
        }
        let start_key = copy_range(buf, pos + 14, pos + 14 + klen);
        assert(start_key@ =~= s.subrange(14, 14 + klen));
        Some((IndexEntry { offset, size, start_key }, pos + 14 + klen))
    }
}

pub open spec fn entries_view(v: Seq<IndexEntry>) -> Seq<EntryView> {
    v.map_values(|e: IndexEntry| e@)
}

/// Start keys strictly ascending.
pub open spec fn entries_ascending(s: Seq<EntryView>) -> bool {
    forall|i: int, j: int|
        0 <= i < j < s.len() ==> key_lt((#[trigger] s[i]).start_key, (#[trigger] s[j]).start_key)
}

/// A block of index entries, ascending by start key.
pub struct IndexBlock {
    pub items: Vec<IndexEntry>,
}

impl IndexBlock {
    pub open spec fn entries(&self) -> Seq<EntryView> {
        entries_view(self.items@)
    }

    /// A copy with the same entries.
    pub fn duplicate(&self) -> (r: IndexBlock)
        ensures
            r.entries() == self.entries(),
    {
        let mut items: Vec<IndexEntry> = Vec::new();
        let mut i: usize = 0;
        while i < self.items.len()
            invariant
                0 <= i <= self.items@.len(),
                entries_view(items@) == self.entries().subrange(0, i as int),
            decreases self.items@.len() - i,
        {
            let ghost before = items@;
            let e = self.items[i].duplicate();
            items.push(e);
            assert(items@ == before.push(e));
            assert(self.entries()[i as int] == e@);
            assert(entries_view(items@) =~= entries_view(before).push(e@));
            assert(self.entries().subrange(0, i + 1) =~= self.entries().subrange(0, i as int).push(e@));
            i = i + 1;
        }
        assert(self.entries().subrange(0, i as int) =~= self.entries());
        IndexBlock { items }
    }

    /// The last entry whose start key is below `key`.
    pub fn get_previous_block_info(&self, key: &[u8]) -> (r: Option<IndexEntry>)
        ensures
            match r {
                Some(e) => exists|j: int|
                    0 <= j < self.items@.len() && self.entries()[j] == e@ && key_lt(e@.start_key, key@)
                        && forall|q: int|
                        j < q < self.items@.len() ==> !key_lt(
                            (#[trigger] self.entries()[q]).start_key,
                            key@,
                        ),
                None => forall|q: int|
                    0 <= q < self.items@.len() ==> !key_lt(
                        (#[trigger] self.entries()[q]).start_key,
                        key@,
                    ),
            },
    {
        let mut i: usize = self.items.len();
        while i > 0
            invariant
                i <= self.items@.len(),
                forall|q: int|
                    i <= q < self.items@.len() ==> !key_lt(
                        (#[trigger] self.entries()[q]).start_key,
                        key@,
                    ),
            decreases i,
        {
            let e = &self.items[i - 1];
            assert(self.entries()[i - 1] == e@);
            if matches!(compare_keys(e.start_key.as_slice(), key), core::cmp::Ordering::Less) {
                return Some(e.duplicate());
            }
            i = i - 1;
        }
        None
    }

    /// The first entry whose start key is above `key`.
    pub fn get_next_block_info(&self, key: &[u8]) -> (r: Option<IndexEntry>)
        ensures
            match r {
                Some(e) => exists|j: int|
                    0 <= j < self.items@.len() && self.entries()[j] == e@ && key_lt(key@, e@.start_key)
                        && forall|q: int|
                        0 <= q < j ==> !key_lt(key@, (#[trigger] self.entries()[q]).start_key),
                None => forall|q: int|
                    0 <= q < self.items@.len() ==> !key_lt(
                        key@,
                        (#[trigger] self.entries()[q]).start_key,
                    ),
            },
    {
        let mut i: usize = 0;
        while i < self.items.len()
            invariant
                i <= self.items@.len(),
                forall|q: int| 0 <= q < i ==> !key_lt(key@, (#[trigger] self.entries()[q]).start_key),
            decreases self.items@.len() - i,
        {
            let e = &self.items[i];
            assert(self.entries()[i as int] == e@);
            if matches!(compare_keys(e.start_key.as_slice(), key), core::cmp::Ordering::Greater) {
                return Some(e.duplicate());
            }
            i = i + 1;
        }
        None
    }

    /// The last entry whose start key is at most `key`: the block that may hold `key`.
    pub fn get_lower_bound_block_info(&self, key: &[u8]) -> (r: Option<IndexEntry>)
        ensures
            match r {
                Some(e) => exists|j: int|
                    0 <= j < self.items@.len() && self.entries()[j] == e@ && key_le(e@.start_key, key@)
                        && forall|q: int|
                        j < q < self.items@.len() ==> !key_le(
                            (#[trigger] self.entries()[q]).start_key,
                            key@,
                        ),
                None => forall|q: int|
                    0 <= q < self.items@.len() ==> !key_le(
                        (#[trigger] self.entries()[q]).start_key,
                        key@,
                    ),
            },
    {
        let mut i: usize = self.items.len();
        while i > 0
            invariant
                i <= self.items@.len(),
                forall|q: int|
                    i <= q < self.items@.len() ==> !key_le(
                        (#[trigger] self.entries()[q]).start_key,
                        key@,
                    ),
            decreases i,
        {
            let e = &self.items[i - 1];
            assert(self.entries()[i - 1] == e@);
            if !matches!(compare_keys(e.start_key.as_slice(), key), core::cmp::Ordering::Greater) {
                return Some(e.duplicate());
            }
            proof {
                lemma_key_lt_asym(key@, e.start_key@);
            }
            i = i - 1;
        }
        None
    }
}


/// `r` is the last entry of `s` whose start key satisfies `pred`.
pub open spec fn is_last_where(s: Seq<EntryView>, r: Option<IndexEntry>, pred: spec_fn(Seq<u8>) -> bool) -> bool {
    match r {
        Some(e) => exists|p: int|
            0 <= p < s.len() && s[p] == e@ && pred(e@.start_key) && forall|q: int|
                p < q < s.len() ==> !pred((#[trigger] s[q]).start_key),
        None => forall|q: int| 0 <= q < s.len() ==> !pred((#[trigger] s[q]).start_key),
    }
}

/// `r` is the first entry of `s` whose start key satisfies `pred`.
pub open spec fn is_first_where(s: Seq<EntryView>, r: Option<IndexEntry>, pred: spec_fn(Seq<u8>) -> bool) -> bool {
    match r {
        Some(e) => exists|p: int|
            0 <= p < s.len() && s[p] == e@ && pred(e@.start_key) && forall|q: int|
                0 <= q < p ==> !pred((#[trigger] s[q]).start_key),
        None => forall|q: int| 0 <= q < s.len() ==> !pred((#[trigger] s[q]).start_key),
    }
}

/// Two-level block index of a segment.
///
/// The top-level index holds one entry per index block, carrying that
/// block's first start key; the index blocks hold one entry per data block.
pub struct MetaIndex {
    pub segment_id: u64,
    /// Top-level index: one entry per index block.
    pub index: Vec<IndexEntry>,
    /// The index blocks, in order.
    pub blocks: Vec<IndexBlock>,
    /// All data-block entries, in order.
    pub flat: Ghost<Seq<EntryView>>,
    /// Position in `flat` of each index block's first entry, then `flat.len()`.
    pub starts: Ghost<Seq<int>>,
}

impl MetaIndex {
    /// The data-block entries, ascending by start key.
    pub open spec fn entries(&self) -> Seq<EntryView> {
        self.flat@
    }

    pub open spec fn wf(&self) -> bool {
        let n = self.blocks@.len() as int;
        &&& n >= 1
        &&& self.index@.len() == n
        &&& self.starts@.len() == n + 1
        &&& self.starts@[0] == 0
        &&& self.starts@[n] == self.flat@.len()
        &&& forall|i: int, j: int| 0 <= i < j <= n ==> self.starts@[i] < self.starts@[j]
        &&& forall|i: int|
            0 <= i < n ==> (#[trigger] self.blocks@[i]).items@.len() == self.starts@[i + 1]
                - self.starts@[i]
        &&& forall|i: int, j: int|
            0 <= i < n && 0 <= j < self.blocks@[i].items@.len() ==> (#[trigger] self.blocks@[i].items@[j])@
                == self.flat@[self.starts@[i] + j]
        &&& forall|i: int|
            0 <= i < n ==> (#[trigger] self.index@[i]).start_key@ == self.flat@[self.starts@[i]].start_key
        &&& entries_ascending(self.flat@)
    }

    /// Last top-level entry whose key is at most `key` (below it, with `strict`).
    fn top_last(&self, key: &[u8], strict: bool) -> (r: Option<usize>)
        requires
            self.wf(),
        ensures
            match r {
                Some(i) => i < self.index@.len() && (if strict {
                    key_lt(self.index@[i as int].start_key@, key@)
                } else {
                    key_le(self.index@[i as int].start_key@, key@)
                }) && forall|q: int|
                    i < q < self.index@.len() ==> !(if strict {
                        key_lt((#[trigger] self.index@[q]).start_key@, key@)
                    } else {
                        key_le(self.index@[q].start_key@, key@)
                    }),
                None => forall|q: int|
                    0 <= q < self.index@.len() ==> !(if strict {
                        key_lt((#[trigger] self.index@[q]).start_key@, key@)
                    } else {
                        key_le(self.index@[q].start_key@, key@)
                    }),
            },
    {
        let mut i: usize = self.index.len();
        while i > 0
            invariant
                i <= self.index@.len(),
                forall|q: int|
                    i <= q < self.index@.len() ==> !(if strict {
                        key_lt((#[trigger] self.index@[q]).start_key@, key@)
                    } else {
                        key_le(self.index@[q].start_key@, key@)
                    }),
            decreases i,
        {
            let c = compare_keys(self.index[i - 1].start_key.as_slice(), key);
            let hit = if strict {
                matches!(c, core::cmp::Ordering::Less)
            } else {
                !matches!(c, core::cmp::Ordering::Greater)
            };
            proof {
                if !strict && !hit {
                    lemma_key_lt_asym(key@, self.index@[i - 1].start_key@);
                }
            }
            if hit {
                return Some(i - 1);
            }
            i = i - 1;
        }
        None
    }

    /// Entries of later index blocks are above the top-level key of block `i + 1`'s predecessor bound.
    proof fn lemma_after_block(&self, i: int, q: int)
        requires
            self.wf(),
            0 <= i < self.blocks@.len(),
            self.starts@[i + 1] <= q < self.flat@.len(),
        ensures
            i + 1 < self.blocks@.len(),
            key_le(self.index@[i + 1].start_key@, self.flat@[q].start_key),
    {
        if i + 1 >= self.blocks@.len() {
            assert(self.starts@[self.blocks@.len() as int] == self.flat@.len());
        }
        assert(self.index@[i + 1].start_key@ == self.flat@[self.starts@[i + 1]].start_key);
        if self.starts@[i + 1] < q {
            assert(key_lt(self.flat@[self.starts@[i + 1]].start_key, self.flat@[q].start_key));
        }
    }

    /// Entries of earlier index blocks are below the top-level key of block `i`.
    proof fn lemma_before_block(&self, i: int, q: int)
        requires
            self.wf(),
            0 <= i < self.blocks@.len(),
            0 <= q < self.starts@[i],
        ensures
            key_lt(self.flat@[q].start_key, self.index@[i].start_key@),
    {
        assert(self.index@[i].start_key@ == self.flat@[self.starts@[i]].start_key);
        assert(self.starts@[i] <= self.flat@.len()) by {
            if i > 0 {
                assert(self.starts@[i] < self.starts@[self.blocks@.len() as int]);
            }
        }
        assert(self.starts@[i] < self.starts@[i + 1]);
        assert(self.starts@[i + 1] <= self.starts@[self.blocks@.len() as int]) by {
            if i + 1 < self.blocks@.len() {
                assert(self.starts@[i + 1] < self.starts@[self.blocks@.len() as int]);
            }
        }
    }

    /// Position facts of index block `i`.
    proof fn lemma_block(&self, i: int)
        requires
            self.wf(),
            0 <= i < self.blocks@.len(),
        ensures
            0 <= self.starts@[i] < self.starts@[i + 1] <= self.flat@.len(),
            self.blocks@[i].items@.len() > 0,
            forall|j: int|
                0 <= j < self.blocks@[i].items@.len() ==> #[trigger] self.blocks@[i].entries()[j]
                    == self.flat@[self.starts@[i] + j],
    {
        assert(self.starts@[i] < self.starts@[i + 1]);
        if i > 0 {
            assert(self.starts@[0] < self.starts@[i]);
        }
        if i + 1 < self.blocks@.len() {
            assert(self.starts@[i + 1] < self.starts@[self.blocks@.len() as int]);
        }
        assert(self.blocks@[i].items@.len() == self.starts@[i + 1] - self.starts@[i]);
        assert forall|j: int| 0 <= j < self.blocks@[i].items@.len() implies #[trigger] self.blocks@[i].entries()[j]
            == self.flat@[self.starts@[i] + j] by {
            assert(self.blocks@[i].items@[j]@ == self.flat@[self.starts@[i] + j]);
        }
    }

    /// The data block that may hold `key`: the last whose start key is at most `key`.
    pub fn get_lower_bound_block_info(&self, key: &[u8]) -> (r: Option<IndexEntry>)
        requires
            self.wf(),
        ensures
            is_last_where(self.entries(), r, |k: Seq<u8>| key_le(k, key@)),
    {
        let ghost f = self.flat@;
        match self.top_last(key, false) {
            None => {
                assert forall|q: int| 0 <= q < f.len() implies !key_le((#[trigger] f[q]).start_key, key@) by {
                    assert(self.index@[0].start_key@ == f[self.starts@[0]].start_key);
                    if q > 0 {
                        assert(key_lt(f[0].start_key, f[q].start_key));
                        if key_le(f[q].start_key, key@) {
                            lemma_key_lt_le_trans_local(f[0].start_key, f[q].start_key, key@);
                        }
                    }
                }
                None
            },
            Some(i) => {
                proof {
                    self.lemma_block(i as int);
                }
                let r = self.blocks[i].get_lower_bound_block_info(key);
                let ghost rg = r;
                proof {
                    let b = self.blocks@[i as int];
                    assert(b.entries()[0] == f[self.starts@[i as int]]);
                    assert(key_le(b.entries()[0].start_key, key@));
                    match rg {
                        Some(e) => {
                            let j = choose|j: int|
                                0 <= j < b.items@.len() && b.entries()[j] == e@ && key_le(
                                    e@.start_key,
                                    key@,
                                ) && forall|q: int|
                                    j < q < b.items@.len() ==> !key_le(
                                        (#[trigger] b.entries()[q]).start_key,
                                        key@,
                                    );
                            let p = self.starts@[i as int] + j;
                            assert forall|q: int| p < q < f.len() implies !key_le(
                                (#[trigger] f[q]).start_key,
                                key@,
                            ) by {
                                if q < self.starts@[i + 1] {
                                    assert(b.entries()[q - self.starts@[i as int]] == f[q]);
                                } else {
                                    self.lemma_after_block(i as int, q);
                                    assert(!key_le(self.index@[i + 1].start_key@, key@));
                                    lemma_key_total(self.index@[i + 1].start_key@, key@);
                                    if key_le(f[q].start_key, key@) {
                                        lemma_key_le_trans_local(
                                            self.index@[i + 1].start_key@,
                                            f[q].start_key,
                                            key@,
                                        );
                                    }
                                }
                            }
                            assert(f[p] == e@);
                        },
                        None => {
                            assert(!key_le(b.entries()[0].start_key, key@));
                        },
                    }
                }
                r
            },
        }
    }
}

impl MetaIndex {
    /// The first data block whose start key is above `key`.
    pub fn get_upper_bound_block_info(&self, key: &[u8]) -> (r: Option<IndexEntry>)
        requires
            self.wf(),
        ensures
            is_first_where(self.entries(), r, |k: Seq<u8>| key_lt(key@, k)),
    {
        let ghost f = self.flat@;
        match self.top_last(key, false) {
            None => {
                proof {
                    self.lemma_block(0);
                    lemma_key_total(self.index@[0].start_key@, key@);
                }
                let e = self.blocks[0].items[0].duplicate();
                assert(self.blocks@[0].entries()[0] == f[0]);
                Some(e)
            },
            Some(i) => {
                proof {
                    self.lemma_block(i as int);
                }
                let r = self.blocks[i].get_next_block_info(key);
                let ghost rg = r;
                let ghost b = self.blocks@[i as int];
                let ghost si = self.starts@[i as int];
                assert forall|q: int| 0 <= q < si implies !key_lt(key@, (#[trigger] f[q]).start_key) by {
                    self.lemma_before_block(i as int, q);
                    if key_lt(key@, f[q].start_key) {
                        lemma_key_lt_trans(key@, f[q].start_key, self.index@[i as int].start_key@);
                        lemma_key_lt_asym(key@, self.index@[i as int].start_key@);
                    }
                }
                match r {
                    Some(e) => {
                        proof {
                            let j = choose|j: int|
                                0 <= j < b.items@.len() && b.entries()[j] == rg.unwrap()@ && key_lt(
                                    key@,
                                    rg.unwrap()@.start_key,
                                ) && forall|q: int|
                                    0 <= q < j ==> !key_lt(key@, (#[trigger] b.entries()[q]).start_key);
                            assert forall|q: int| 0 <= q < si + j implies !key_lt(
                                key@,
                                (#[trigger] f[q]).start_key,
                            ) by {
                                if q >= si {
                                    assert(b.entries()[q - si] == f[q]);
                                }
                            }
                            assert(f[si + j] == e@);
                        }
                        Some(e)
                    },
                    None => {
                        if i < self.blocks.len() - 1 {
                            proof {
                                self.lemma_block(i + 1);
                                lemma_key_total(self.index@[i + 1].start_key@, key@);
                            }
                            let e = self.blocks[i + 1].items[0].duplicate();
                            proof {
                                let p = self.starts@[i + 1];
                                assert(self.blocks@[i + 1].entries()[0] == f[p]);
                                assert forall|q: int| 0 <= q < p implies !key_lt(
                                    key@,
                                    (#[trigger] f[q]).start_key,
                                ) by {
                                    if q >= si {
                                        assert(b.entries()[q - si] == f[q]);
                                    }
                                }
                            }
                            Some(e)
                        } else {
                            proof {
                                assert(self.starts@[self.blocks@.len() as int] == f.len());
                                assert forall|q: int| 0 <= q < f.len() implies !key_lt(
                                    key@,
                                    (#[trigger] f[q]).start_key,
                                ) by {
                                    if q >= si {
                                        assert(b.entries()[q - si] == f[q]);
                                    }
                                }
                            }
                            None
                        }
                    },
                }
            },
        }
    }

    /// The data block after the one that may hold `key`: the first whose start key is above `key`.
    pub fn get_next_block_key(&self, key: &[u8]) -> (r: Option<IndexEntry>)
        requires
            self.wf(),
        ensures
            is_first_where(self.entries(), r, |k: Seq<u8>| key_lt(key@, k)),
    {
        self.get_upper_bound_block_info(key)
    }

    /// The last data block whose start key is below `key`.
    pub fn get_previous_block_key(&self, key: &[u8]) -> (r: Option<IndexEntry>)
        requires
            self.wf(),
        ensures
            is_last_where(self.entries(), r, |k: Seq<u8>| key_lt(k, key@)),
    {
        let ghost f = self.flat@;
        match self.top_last(key, true) {
            None => {
                assert forall|q: int| 0 <= q < f.len() implies !key_lt((#[trigger] f[q]).start_key, key@) by {
                    assert(self.index@[0].start_key@ == f[self.starts@[0]].start_key);
                    if q > 0 && key_lt(f[q].start_key, key@) {
                        lemma_key_lt_trans(f[0].start_key, f[q].start_key, key@);
                    }
                }
                None
            },
            Some(i) => {
                proof {
                    self.lemma_block(i as int);
                }
                let r = self.blocks[i].get_previous_block_info(key);
                let ghost rg = r;
                let ghost b = self.blocks@[i as int];
                let ghost si = self.starts@[i as int];
                proof {
                    assert(b.entries()[0] == f[si]);
                    match rg {
                        Some(e) => {
                            let j = choose|j: int|
                                0 <= j < b.items@.len() && b.entries()[j] == e@ && key_lt(
                                    e@.start_key,
                                    key@,
                                ) && forall|q: int|
                                    j < q < b.items@.len() ==> !key_lt(
                                        (#[trigger] b.entries()[q]).start_key,
                                        key@,
                                    );
                            assert forall|q: int| si + j < q < f.len() implies !key_lt(
                                (#[trigger] f[q]).start_key,
                                key@,
                            ) by {
                                if q < self.starts@[i + 1] {
                                    assert(b.entries()[q - si] == f[q]);
                                } else {
                                    self.lemma_after_block(i as int, q);
                                    if key_lt(f[q].start_key, key@) {
                                        crate::order::lemma_key_le_lt_trans(
                                            self.index@[i + 1].start_key@,
                                            f[q].start_key,
                                            key@,
                                        );
                                    }
                                }
                            }
                            assert(f[si + j] == e@);
                        },
                        None => {},
                    }
                }
                r
            },
        }
    }

    /// The first data block.
    pub fn get_first_block_key(&self) -> (r: IndexEntry)
        requires
            self.wf(),
        ensures
            self.entries().len() > 0,
            r@ == self.entries()[0],
    {
        proof {
            self.lemma_block(0);
        }
        let e = self.blocks[0].items[0].duplicate();
        assert(self.blocks@[0].entries()[0] == self.flat@[0]);
        e
    }

    /// The last data block.
    pub fn get_last_block_key(&self) -> (r: IndexEntry)
        requires
            self.wf(),
        ensures
            self.entries().len() > 0,
            r@ == self.entries()[self.entries().len() - 1],
    {
        let n = self.blocks.len();
        proof {
            self.lemma_block(n - 1);
        }
        let m = self.blocks[n - 1].items.len();
        let e = self.blocks[n - 1].items[m - 1].duplicate();
        assert(self.blocks@[n - 1].entries()[m - 1] == self.flat@[self.starts@[n - 1] + m - 1]);
        e
    }

    /// The data block that may hold the newest version of `key`.
    pub fn get_latest(&self, key: &[u8]) -> (r: Option<IndexEntry>)
        requires
            self.wf(),
        ensures
            is_last_where(self.entries(), r, |k: Seq<u8>| key_le(k, key@)),
    {
        self.get_lower_bound_block_info(key)
    }

    /// The first data block whose start key is above `prefix` and does not start with it.
    pub fn get_prefix_upper_bound(&self, prefix: &[u8]) -> (r: Option<IndexEntry>)
        requires
            self.wf(),
        ensures
            is_first_where(
                self.entries(),
                r,
                |k: Seq<u8>| key_lt(prefix@, k) && !has_prefix(k, prefix@),
            ),
    {
        let ghost f = self.flat@;
        let mut i: usize = 0;
        while i < self.blocks.len()
            invariant
                self.wf(),
                f == self.flat@,
                0 <= i <= self.blocks@.len(),
                forall|q: int|
                    0 <= q < self.starts@[i as int] ==> !(key_lt(prefix@, (#[trigger] f[q]).start_key)
                        && !has_prefix(f[q].start_key, prefix@)),
            decreases self.blocks@.len() - i,
        {
            proof {
                self.lemma_block(i as int);
            }
            let ghost si = self.starts@[i as int];
            let mut j: usize = 0;
            while j < self.blocks[i].items.len()
                invariant
                    self.wf(),
                    f == self.flat@,
                    0 <= i < self.blocks@.len(),
                    si == self.starts@[i as int],
                    0 <= j <= self.blocks@[i as int].items@.len(),
                    forall|jj: int|
                        0 <= jj < self.blocks@[i as int].items@.len() ==> #[trigger] self.blocks@[i as int].entries()[jj]
                            == f[si + jj],
                    forall|q: int|
                        0 <= q < si + j ==> !(key_lt(prefix@, (#[trigger] f[q]).start_key)
                            && !has_prefix(f[q].start_key, prefix@)),
                decreases self.blocks@[i as int].items@.len() - j,
            {
                let e = &self.blocks[i].items[j];
                assert(self.blocks@[i as int].entries()[j as int] == e@);
                let above = matches!(
                    compare_keys(prefix, e.start_key.as_slice()),
                    core::cmp::Ordering::Less
                );
                if above && !starts_with(e.start_key.as_slice(), prefix) {
                    return Some(e.duplicate());
                }
                j = j + 1;
            }
            assert(self.blocks@[i as int].items@.len() == self.starts@[i + 1] - si);
            i = i + 1;
        }
        assert(self.starts@[self.blocks@.len() as int] == f.len());
        None
    }
}

impl MetaIndex {
    /// Builds the two-level index over the data-block entries `items`,
    /// grouping them into index blocks of at most `entries_per_block`.
    /// `None` where `items` is empty, not strictly ascending, or the group size is zero.
    pub fn from_items(segment_id: u64, items: Vec<IndexEntry>, entries_per_block: usize) -> (r:
        Option<MetaIndex>)
        ensures
            r.is_some() == (items@.len() > 0 && entries_per_block > 0 && entries_ascending(
                entries_view(items@),
            )),
            r.is_some() ==> r.unwrap().wf() && r.unwrap().entries() == entries_view(items@)
                && r.unwrap().segment_id == segment_id,
    {
        let n = items.len();
        let ghost f = entries_view(items@);
        if n == 0 || entries_per_block == 0 {
            return None;
        }
        let mut i: usize = 1;
        while i < n
            invariant
                n == items@.len(),
                f == entries_view(items@),
                1 <= i <= n,
                forall|a: int, b: int| 0 <= a < b < i ==> key_lt((#[trigger] f[a]).start_key, (#[trigger] f[b]).start_key),
            decreases n - i,
        {
            if !matches!(
                compare_keys(items[i - 1].start_key.as_slice(), items[i].start_key.as_slice()),
                core::cmp::Ordering::Less
            ) {
                assert(f[i - 1] == items@[i - 1]@);
                assert(f[i as int] == items@[i as int]@);
                proof {
                    if key_lt(items@[i - 1].start_key@, items@[i as int].start_key@) {
                    }
                }
                return None;
            }
            assert forall|a: int, b: int| 0 <= a < b < i + 1 implies key_lt(
                (#[trigger] f[a]).start_key,
                (#[trigger] f[b]).start_key,
            ) by {
                if b == i && a < i - 1 {
                    lemma_key_lt_trans(f[a].start_key, f[i - 1].start_key, f[b].start_key);
                }
            }
            i = i + 1;
        }
        let mut blocks: Vec<IndexBlock> = Vec::new();
        let mut index: Vec<IndexEntry> = Vec::new();
        let mut cur: Vec<IndexEntry> = Vec::new();
        let ghost mut starts: Seq<int> = seq![0int];
        let mut offset: u64 = 0;
        let mut cur_size: u64 = 8;
        let mut i: usize = 0;
        while i < n
            invariant
                n == items@.len(),
                f == entries_view(items@),
                entries_ascending(f),
                entries_per_block > 0,
                0 <= i <= n,
                blocks@.len() == index@.len(),
                starts.len() == blocks@.len() + 1,
                starts[0] == 0,
                starts[blocks@.len() as int] + cur@.len() == i,
                cur@.len() < entries_per_block,
                i == n ==> cur@.len() == 0,
                forall|a: int, b: int| 0 <= a < b <= blocks@.len() ==> #[trigger] starts[a] < #[trigger] starts[b],
                forall|b: int|
                    0 <= b < blocks@.len() ==> (#[trigger] blocks@[b]).items@.len() == starts[b + 1]
                        - starts[b],
                forall|b: int, j: int|
                    0 <= b < blocks@.len() && 0 <= j < blocks@[b].items@.len() ==> (#[trigger] blocks@[b].items@[j])@
                        == f[starts[b] + j],
                forall|b: int| 0 <= b < blocks@.len() ==> (#[trigger] index@[b]).start_key@ == f[starts[b]].start_key,
                forall|j: int| 0 <= j < cur@.len() ==> (#[trigger] cur@[j])@ == f[starts[blocks@.len() as int] + j],
            decreases n - i,
        {
            let e = items[i].duplicate();
            assert(f[i as int] == e@);
            cur_size = cur_size.saturating_add(14u64.saturating_add(e.start_key.len() as u64));
            cur.push(e);
            if cur.len() == entries_per_block || i == n - 1 {
                let first = cur[0].duplicate();
                let size: u32 = if cur_size > u32::MAX as u64 {
                    u32::MAX
                } else {
                    cur_size as u32
                };
                let ghost nb = blocks@.len() as int;
                let ghost old_starts = starts;
                let ghost old_blocks = blocks@;
                let ghost old_index = index@;
                index.push(IndexEntry { offset, size, start_key: first.start_key });
                blocks.push(IndexBlock { items: cur });
                cur = Vec::new();
                proof {
                    starts = starts.push(i + 1);
                    assert forall|a: int, b: int| 0 <= a < b <= blocks@.len() implies #[trigger] starts[a]
                        < #[trigger] starts[b] by {
                        if b == nb + 1 && a < nb {
                            assert(old_starts[a] < old_starts[nb]);
                        }
                    }
                    assert forall|b: int|
                        0 <= b < blocks@.len() implies (#[trigger] blocks@[b]).items@.len() == starts[b + 1]
                            - starts[b] by {
                        if b < nb {
                            assert(blocks@[b] == old_blocks[b]);
                        }
                    }
                    assert forall|b: int, j: int|
                        0 <= b < blocks@.len() && 0 <= j < blocks@[b].items@.len() implies (#[trigger] blocks@[b].items@[j])@
                            == f[starts[b] + j] by {
                        if b < nb {
                            assert(blocks@[b] == old_blocks[b]);
                        }
                    }
                    assert forall|b: int| 0 <= b < blocks@.len() implies (#[trigger] index@[b]).start_key@
                        == f[starts[b]].start_key by {
                        if b < nb {
                            assert(index@[b] == old_index[b]);
                        }
                    }
                }
                offset = offset.saturating_add(cur_size);
                cur_size = 8;
            }
            i = i + 1;
        }
        let m = MetaIndex {
            segment_id,
            index,
            blocks,
            flat: Ghost(f),
            starts: Ghost(starts),
        };
        assert(m.starts@[m.blocks@.len() as int] == f.len());
        Some(m)
    }
}

/// What stays of `s` when one more block comes into a cache of `capacity`:
/// the least recently used goes once the cache would overflow.
pub open spec fn evicted(s: Seq<(u64, Vec<u8>, IndexBlock)>, capacity: usize) -> Seq<(u64, Vec<u8>, IndexBlock)> {
    if s.len() + 1 > capacity {
        s.drop_first()
    } else {
        s
    }
}

/// A bounded cache of index blocks keyed by segment id and block key,
/// evicting the least recently used.
pub struct IndexBlockIndex {
    pub capacity: usize,
    /// Cached blocks, least recently used first.
    pub entries: Vec<(u64, Vec<u8>, IndexBlock)>,
}

impl IndexBlockIndex {
    pub open spec fn at(&self, i: int, id: u64, key: Seq<u8>) -> bool {
        0 <= i < self.entries@.len() && self.entries@[i].0 == id && self.entries@[i].1@ == key
    }

    /// The block cached for `(id, key)`.
    pub open spec fn cached(&self, id: u64, key: Seq<u8>) -> Option<Seq<EntryView>> {
        if exists|i: int| self.at(i, id, key) {
            Some(self.entries@[choose|i: int| self.at(i, id, key)].2.entries())
        } else {
            None
        }
    }

    /// The cached blocks without the one of `(id, key)`, in the same order.
    pub open spec fn without(&self, id: u64, key: Seq<u8>) -> Seq<(u64, Vec<u8>, IndexBlock)> {
        if exists|i: int| self.at(i, id, key) {
            self.entries@.remove(choose|i: int| self.at(i, id, key))
        } else {
            self.entries@
        }
    }

    pub open spec fn wf(&self) -> bool {
        &&& self.capacity >= 1
        &&& self.entries@.len() <= self.capacity
        &&& forall|i: int, j: int|
            0 <= i < j < self.entries@.len() ==> !((#[trigger] self.entries@[i]).0
                == (#[trigger] self.entries@[j]).0 && self.entries@[i].1@ == self.entries@[j].1@)
    }

    /// An empty cache of at most `capacity` blocks.
    pub fn new(capacity: usize) -> (r: IndexBlockIndex)
        requires
            capacity >= 1,
        ensures
            r.wf(),
            r.capacity == capacity,
            forall|id: u64, key: Seq<u8>| r.cached(id, key).is_none(),
    {
        IndexBlockIndex { capacity, entries: Vec::new() }
    }

    proof fn lemma_cached_at(&self, i: int, id: u64, key: Seq<u8>)
        requires
            self.wf(),
            self.at(i, id, key),
        ensures
            self.cached(id, key) == Some(self.entries@[i].2.entries()),
    {
        let j = choose|j: int| self.at(j, id, key);
        if i != j {
            if i < j {
                assert(!(self.entries@[i].0 == self.entries@[j].0 && self.entries@[i].1@ == self.entries@[j].1@));
            } else {
                assert(!(self.entries@[j].0 == self.entries@[i].0 && self.entries@[j].1@ == self.entries@[i].1@));
            }
        }
    }

    fn position(&self, id: u64, key: &[u8]) -> (r: Option<usize>)
        ensures
            match r {
                Some(i) => self.at(i as int, id, key@),
                None => !exists|i: int| self.at(i, id, key@),
            },
    {
        let mut i: usize = 0;
        while i < self.entries.len()
            invariant
                0 <= i <= self.entries@.len(),
                forall|j: int| 0 <= j < i ==> !self.at(j, id, key@),
            decreases self.entries@.len() - i,
        {
            if self.entries[i].0 == id && matches!(
                compare_keys(self.entries[i].1.as_slice(), key),
                core::cmp::Ordering::Equal
            ) {
                return Some(i);
            }
            i = i + 1;
        }
        None
    }

    /// The block cached for `(segment_id, key)`, which becomes the most recently used.
    pub fn get(&mut self, segment_id: u64, key: &[u8]) -> (r: Option<IndexBlock>)
        requires
            old(self).wf(),
        ensures
            final(self).wf(),
            final(self).capacity == old(self).capacity,
            r.is_some() == old(self).cached(segment_id, key@).is_some(),
            r.is_some() ==> old(self).cached(segment_id, key@) == Some(r.unwrap().entries()),
            forall|id: u64, k: Seq<u8>| #[trigger] final(self).cached(id, k) == old(self).cached(id, k),
    {
        match self.position(segment_id, key) {
            None => None,
            Some(i) => {
                let ghost s0 = *self;
                proof {
                    s0.lemma_cached_at(i as int, segment_id, key@);
                }
                let e = self.entries.remove(i);
                let copy = e.2.duplicate();
                let ghost eg = e;
                self.entries.push(e);
                proof {
                    let s1 = *self;
                    let n = s0.entries@.len() as int;
                    assert forall|j: int| 0 <= j < n implies #[trigger] s1.entries@[j] == if j < i {
                        s0.entries@[j]
                    } else if j < n - 1 {
                        s0.entries@[j + 1]
                    } else {
                        s0.entries@[i as int]
                    } by {}
                    assert forall|a: int, b: int|
                        0 <= a < b < n implies !((#[trigger] s1.entries@[a]).0 == (#[trigger] s1.entries@[b]).0
                        && s1.entries@[a].1@ == s1.entries@[b].1@) by {
                        let pa = if a < i { a } else if a < n - 1 { a + 1 } else { i as int };
                        let pb = if b < i { b } else if b < n - 1 { b + 1 } else { i as int };
                        if pa < pb {
                            assert(!(s0.entries@[pa].0 == s0.entries@[pb].0 && s0.entries@[pa].1@ == s0.entries@[pb].1@));
                        } else {
                            assert(pa != pb);
                            assert(!(s0.entries@[pb].0 == s0.entries@[pa].0 && s0.entries@[pb].1@ == s0.entries@[pa].1@));
                        }
                    }
                    assert(s1.wf());
                    assert forall|id: u64, k: Seq<u8>| #[trigger] s1.cached(id, k) == s0.cached(id, k) by {
                        if exists|j: int| s0.at(j, id, k) {
                            let j = choose|j: int| s0.at(j, id, k);
                            s0.lemma_cached_at(j, id, k);
                            let p = if j < i { j } else if j == i { n - 1 } else { j - 1 };
                            assert(s1.at(p, id, k));
                            s1.lemma_cached_at(p, id, k);
                        } else if exists|j: int| s1.at(j, id, k) {
                            let j = choose|j: int| s1.at(j, id, k);
                            let p = if j < i { j } else if j < n - 1 { j + 1 } else { i as int };
                            assert(s0.at(p, id, k));
                        }
                    }
                }
                Some(copy)
            },
        }
    }

    /// Caches `value` for `(segment_id, key)`, evicting the least recently
    /// used block when full.
    pub fn insert(&mut self, segment_id: u64, key: Vec<u8>, value: IndexBlock)
        requires
            old(self).wf(),
        ensures
            final(self).wf(),
            final(self).capacity == old(self).capacity,
            final(self).cached(segment_id, key@) == Some(value.entries()),
            final(self).entries@.last() == (segment_id, key, value),
            final(self).entries@.drop_last() == evicted(old(self).without(segment_id, key@), old(self).capacity),
    {
        let ghost kv = key@;
        let ghost s0 = self.entries@;
        let ghost tup = (segment_id, key, value);
        match self.position(segment_id, key.as_slice()) {
            Some(i) => {
                let ghost s0 = *self;
                self.entries.remove(i);
                proof {
                    let s1 = *self;
                    assert forall|j: int| 0 <= j < s1.entries@.len() implies !s1.at(j, segment_id, kv) by {
                        let p = if j < i { j } else { j + 1 };
                        assert(s1.entries@[j] == s0.entries@[p]);
                        if p < i {
                            assert(!(s0.entries@[p].0 == s0.entries@[i as int].0 && s0.entries@[p].1@ == s0.entries@[i as int].1@));
                        } else {
                            assert(!(s0.entries@[i as int].0 == s0.entries@[p].0 && s0.entries@[i as int].1@ == s0.entries@[p].1@));
                        }
                    }
                    assert forall|a: int, b: int|
                        0 <= a < b < s1.entries@.len() implies !((#[trigger] s1.entries@[a]).0
                        == (#[trigger] s1.entries@[b]).0 && s1.entries@[a].1@ == s1.entries@[b].1@) by {
                        let pa = if a < i { a } else { a + 1 };
                        let pb = if b < i { b } else { b + 1 };
                        assert(s1.entries@[a] == s0.entries@[pa]);
                        assert(s1.entries@[b] == s0.entries@[pb]);
                    }
                }
            },
            None => {},
        }
        let ghost s1 = *self;
        let ghost vb = value.entries();
        assert(s1.entries@ == old(self).without(segment_id, kv)) by {
            if exists|i: int| old(self).at(i, segment_id, kv) {
                let c = choose|i: int| old(self).at(i, segment_id, kv);
                assert(!(s1.entries@.len() == s0.len())) by {
                    if s1.entries@.len() == s0.len() {
                        assert(s1.entries@ == s0);
                    }
                }
            }
        }
        self.entries.push((segment_id, key, value));
        let ghost s2 = *self;
        assert forall|a: int, b: int|
            0 <= a < b < s2.entries@.len() implies !((#[trigger] s2.entries@[a]).0 == (#[trigger] s2.entries@[b]).0
            && s2.entries@[a].1@ == s2.entries@[b].1@) by {
            if b == s2.entries@.len() - 1 {
                assert(!s1.at(a, segment_id, kv));
            } else {
                assert(s2.entries@[a] == s1.entries@[a]);
                assert(s2.entries@[b] == s1.entries@[b]);
            }
        }
        if self.entries.len() > self.capacity {
            self.entries.remove(0);
            assert(self.entries@.drop_last() =~= s1.entries@.drop_first());
            proof {
                let s3 = *self;
                assert forall|a: int, b: int|
                    0 <= a < b < s3.entries@.len() implies !((#[trigger] s3.entries@[a]).0
                    == (#[trigger] s3.entries@[b]).0 && s3.entries@[a].1@ == s3.entries@[b].1@) by {
                    assert(s3.entries@[a] == s2.entries@[a + 1]);
                    assert(s3.entries@[b] == s2.entries@[b + 1]);
                }
            }
        }
        assert(s2.entries@.drop_last() =~= s1.entries@);
        proof {
            let n = self.entries@.len() as int;
            assert(self.entries@[n - 1].0 == segment_id && self.entries@[n - 1].1@ == kv);
            assert(self.entries@[n - 1].2.entries() == vb);
            self.lemma_cached_at(n - 1, segment_id, kv);
        }
    }
}

proof fn lemma_key_lt_le_trans_local(a: Seq<u8>, b: Seq<u8>, c: Seq<u8>)
    requires
        key_lt(a, b),
        key_le(b, c),
    ensures
        key_lt(a, c),
{
    crate::order::lemma_key_lt_le_trans(a, b, c);
}

proof fn lemma_key_le_trans_local(a: Seq<u8>, b: Seq<u8>, c: Seq<u8>)
    requires
        key_le(a, b),
        key_le(b, c),
    ensures
        key_le(a, c),
{
    if a != b && b != c {
        lemma_key_lt_trans(a, b, c);
    }
}

} // verus!
