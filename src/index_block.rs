use vstd::prelude::*;
use crate::codec::{be32, de32, get_u32, lemma_be32, put_u32};
use crate::journal::{crc32, crc32_of};
use crate::tree::Error;
use crate::index::{encode_entry, entries_view, lemma_entry_round_trip, parse_entry, EntryView, IndexEntry};
use crate::value::MAX_KEY_LEN;

verus! {

/// Encoded index entries one after another.
pub open spec fn encode_entries(rs: Seq<EntryView>) -> Seq<u8>
    decreases rs.len(),
{
    if rs.len() == 0 {
        Seq::empty()
    } else {
        encode_entry(rs[0]) + encode_entries(rs.drop_first())
    }
}

/// An index block: `item_count: u32 | entries | crc32(entries): u32`, big-endian.
pub open spec fn encode_index_block(rs: Seq<EntryView>) -> Seq<u8> {
    be32(rs.len() as u32) + encode_entries(rs) + be32(crc32(encode_entries(rs)))
}

/// Reads `count` index entries from the start of `s`, with the bytes they take.
pub open spec fn parse_entries(s: Seq<u8>, count: nat) -> Option<(Seq<EntryView>, int)>
    decreases count,
{
    if count == 0 {
        Some((Seq::empty(), 0))
    } else {
        match parse_entry(s) {
            Some((r, n)) => if 0 < n <= s.len() {
                match parse_entries(s.subrange(n, s.len() as int), (count - 1) as nat) {
                    Some((rs, m)) => Some((seq![r] + rs, n + m)),
                    None => None,
                }
            } else {
                None
            },
            None => None,
        }
    }
}

/// What reading an index block gives: its entries, or the error.
pub open spec fn parse_index_block(s: Seq<u8>) -> Result<Seq<EntryView>, Error> {
    if s.len() < 4 {
        Err(Error::Deserialize)
    } else {
        match parse_entries(s.subrange(4, s.len() as int), de32(s.subrange(0, 4)) as nat) {
            Some((rs, m)) => if s.len() < 8 + m {
                Err(Error::Deserialize)
            } else if de32(s.subrange(4 + m, 8 + m)) != crc32(s.subrange(4, 4 + m)) {
                Err(Error::CrcMismatch)
            } else {
                Ok(rs)
            },
            None => Err(Error::Deserialize),
        }
    }
}

pub proof fn lemma_entries_round_trip(rs: Seq<EntryView>, rest: Seq<u8>)
    requires
        forall|i: int| 0 <= i < rs.len() ==> (#[trigger] rs[i]).start_key.len() <= MAX_KEY_LEN,
    ensures
        parse_entries(encode_entries(rs) + rest, rs.len()) == Some((rs, encode_entries(rs).len() as int)),
    decreases rs.len(),
{
    if rs.len() > 0 {
        let tail = rs.drop_first();
        let s = encode_entries(rs) + rest;
        assert(rs[0].start_key.len() <= MAX_KEY_LEN);
        assert(s =~= encode_entry(rs[0]) + (encode_entries(tail) + rest));
        lemma_entry_round_trip(rs[0], encode_entries(tail) + rest);
        let n = encode_entry(rs[0]).len() as int;
        assert(s.subrange(n, s.len() as int) =~= encode_entries(tail) + rest);
        assert forall|i: int| 0 <= i < tail.len() implies (#[trigger] tail[i]).start_key.len() <= MAX_KEY_LEN by {
            assert(tail[i] == rs[i + 1]);
        }
        lemma_entries_round_trip(tail, rest);
        assert(seq![rs[0]] + tail =~= rs);
    }
}

/// Encoding an index block and reading it back gives its entries, checksum included.
pub proof fn lemma_index_block_round_trip(rs: Seq<EntryView>)
    requires
        rs.len() <= u32::MAX,
        forall|i: int| 0 <= i < rs.len() ==> (#[trigger] rs[i]).start_key.len() <= MAX_KEY_LEN,
    ensures
        parse_index_block(encode_index_block(rs)) == Ok::<Seq<EntryView>, Error>(rs),
{
    let body = encode_entries(rs);
    let s = encode_index_block(rs);
    let m = body.len() as int;
    lemma_be32(rs.len() as u32);
    lemma_be32(crc32(body));
    assert(s.subrange(0, 4) =~= be32(rs.len() as u32));
    assert(s.subrange(4, s.len() as int) =~= body + be32(crc32(body)));
    lemma_entries_round_trip(rs, be32(crc32(body)));
    assert(s.subrange(4 + m, 8 + m) =~= be32(crc32(body)));
    assert(s.subrange(4, 4 + m) =~= body);
}

/// Encodes index entries as an index block, as a segment's top-level index is stored.
pub fn serialize_index_block(values: &Vec<IndexEntry>) -> (r: Vec<u8>)
    requires
        values@.len() <= u32::MAX,
        forall|i: int| 0 <= i < values@.len() ==> (#[trigger] values@[i]).start_key@.len() <= MAX_KEY_LEN,
    ensures
        r@ == encode_index_block(entries_view(values@)),
{
    let ghost rs = entries_view(values@);
    let mut body: Vec<u8> = Vec::new();
    let mut i: usize = 0;
    assert(rs.subrange(0, rs.len() as int) =~= rs);
    assert(body@ + encode_entries(rs) =~= encode_entries(rs));
    while i < values.len()
        invariant
            rs == entries_view(values@),
            0 <= i <= values@.len(),
            forall|k: int| 0 <= k < values@.len() ==> (#[trigger] values@[k]).start_key@.len() <= MAX_KEY_LEN,
            body@ + encode_entries(rs.subrange(i as int, rs.len() as int)) == encode_entries(rs),
        decreases values@.len() - i,
    {
        let ghost b0 = body@;
        values[i].serialize(&mut body);
        let ghost sub = rs.subrange(i as int, rs.len() as int);
        assert(sub[0] == values@[i as int]@);
        assert(sub.drop_first() =~= rs.subrange(i + 1, rs.len() as int));
        assert(body@ + encode_entries(rs.subrange(i + 1, rs.len() as int)) =~= b0 + encode_entries(sub));
        i = i + 1;
    }
    assert(encode_entries(rs.subrange(i as int, rs.len() as int)) =~= Seq::<u8>::empty());
    assert(body@ =~= encode_entries(rs));
    let crc = crc32_of(body.as_slice(), 0, body.len());
    assert(body@.subrange(0, body@.len() as int) =~= body@);
    let mut out: Vec<u8> = Vec::new();
    put_u32(&mut out, values.len() as u32);
    crate::codec::put_bytes(&mut out, body.as_slice());
    put_u32(&mut out, crc);
    assert(out@ =~= encode_index_block(rs));
    out
}

/// Reads an index block: its entries, `Deserialize` where the bytes do not
/// hold them, `CrcMismatch` where the checksum differs.
pub fn deserialize_index_block(buf: &[u8]) -> (r: Result<Vec<IndexEntry>, Error>)
    ensures
        match parse_index_block(buf@) {
            Ok(rs) => r.is_ok() && entries_view(r.unwrap()@) == rs,
            Err(e) => r == Err::<Vec<IndexEntry>, Error>(e),
        },
{
    if buf.len() < 4 {
        return Err(Error::Deserialize);
    }
    let count = get_u32(buf, 0);
    assert(buf@.subrange(0, 4) == buf@.subrange(0, 4));
    let ghost whole = buf@.subrange(4, buf@.len() as int);
    let mut out: Vec<IndexEntry> = Vec::new();
    let mut pos: usize = 4;
    let mut i: u32 = 0;
    assert(buf@.subrange(4, buf@.len() as int) =~= whole);
    while i < count
        invariant
            4 <= pos <= buf@.len(),
            i <= count,
            whole == buf@.subrange(4, buf@.len() as int),
            count == de32(buf@.subrange(0, 4)),
            parse_entries(whole, count as nat) matches Some((rs, m)) ==> {
                &&& parse_entries(buf@.subrange(pos as int, buf@.len() as int), (count - i) as nat) matches Some((rest, mr))
                &&& entries_view(out@) + rest == rs
                &&& (pos - 4) + mr == m
            },
            parse_entries(whole, count as nat).is_none() ==> parse_entries(
                buf@.subrange(pos as int, buf@.len() as int),
                (count - i) as nat,
            ).is_none(),
        decreases count - i,
    {
        let ghost s = buf@.subrange(pos as int, buf@.len() as int);
        match IndexEntry::deserialize(buf, pos) {
            Some((v, next)) => {
                let ghost n = next - pos;
                assert(s.subrange(n, s.len() as int) =~= buf@.subrange(next as int, buf@.len() as int));
                let ghost o0 = entries_view(out@);
                out.push(v);
                assert(entries_view(out@) =~= o0.push(v@));
                proof {
                    if let Some((rs, m)) = parse_entries(whole, count as nat) {
                        let (rest, mr) = parse_entries(s, (count - i) as nat).unwrap();
                        let (rest2, mr2) = parse_entries(buf@.subrange(next as int, buf@.len() as int), (count - i - 1) as nat).unwrap();
                        assert(rest == seq![v@] + rest2);
                        assert(entries_view(out@) + rest2 =~= o0 + rest);
                    }
                }
                pos = next;
            },
            None => {
                return Err(Error::Deserialize);
            },
        }
        i = i + 1;
    }
    let ghost tailing = buf@.subrange(pos as int, buf@.len() as int);
    assert(parse_entries(tailing, 0) == Some((Seq::<EntryView>::empty(), 0int)));
    assert(entries_view(out@) + Seq::<EntryView>::empty() =~= entries_view(out@));
    if buf.len() - pos < 4 {
        return Err(Error::Deserialize);
    }
    let stored = get_u32(buf, pos);
    let sum = crc32_of(buf, 4, pos);
    if stored != sum {
        return Err(Error::CrcMismatch);
    }
    Ok(out)
}


} // verus!
