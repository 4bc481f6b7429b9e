use vstd::prelude::*;
use crate::codec::{
    be16, be32, be64, copy_range, de16, de32, de64, get_u16, get_u32, get_u64, lemma_be16,
    lemma_be32, lemma_be64, put_bytes, put_u16, put_u32, put_u64,
};
use crate::order::{key_lt, lemma_key_lt_trans, lemma_key_lt_irrefl};

verus! {

/// Sequence number of a write.
pub type SeqNo = u64;

/// Largest length of a user key.
pub const MAX_KEY_LEN: usize = 65535;

/// Largest length of a value: an encoded record, with the header of a block
/// that holds it alone, must fit in 32 bits.
pub const MAX_VALUE_LEN: usize = 4294901737;

/// The mathematical content of a [`Value`].
pub struct Record {
    pub key: Seq<u8>,
    pub value: Seq<u8>,
    pub seqno: u64,
    pub tombstone: bool,
}

/// A written record: a user key, its value bytes, its sequence number and
/// whether it deletes the key.
#[derive(Clone, Debug)]
pub struct Value {
    pub key: Vec<u8>,
    pub value: Vec<u8>,
    pub seqno: SeqNo,
    pub is_tombstone: bool,
}

impl View for Value {
    type V = Record;

    open spec fn view(&self) -> Record {
        Record { key: self.key@, value: self.value@, seqno: self.seqno, tombstone: self.is_tombstone }
    }
}

/// A record whose lengths fit the on-disk fields.
pub open spec fn record_fits(r: Record) -> bool {
    r.key.len() <= MAX_KEY_LEN && r.value.len() <= MAX_VALUE_LEN
}

/// Order of internal keys: user key ascending, then sequence number descending.
pub open spec fn internal_lt(a: Record, b: Record) -> bool {
    key_lt(a.key, b.key) || (a.key == b.key && a.seqno > b.seqno)
}

pub proof fn lemma_internal_lt_trans(a: Record, b: Record, c: Record)
    requires
        internal_lt(a, b),
        internal_lt(b, c),
    ensures
        internal_lt(a, c),
{
    if key_lt(a.key, b.key) && key_lt(b.key, c.key) {
        lemma_key_lt_trans(a.key, b.key, c.key);
    }
}

/// The encoding of a record:
/// `seqno: u64 | tombstone: u8 | key_len: u16 | key | value_len: u32 | value`, big-endian.
pub open spec fn encode_value(r: Record) -> Seq<u8> {
    be64(r.seqno) + seq![if r.tombstone { 1u8 } else { 0u8 }] + be16(r.key.len() as u16) + r.key
        + be32(r.value.len() as u32) + r.value
}

/// Reads a record at the start of `s`, with the number of bytes it takes.
pub open spec fn parse_value(s: Seq<u8>) -> Option<(Record, int)> {
    if s.len() < 11 || s[8] > 1 {
        None
    } else {
        let klen = de16(s.subrange(9, 11)) as int;
        if s.len() < 15 + klen {
            None
        } else {
            let vlen = de32(s.subrange(11 + klen, 15 + klen)) as int;
            if s.len() < 15 + klen + vlen {
                None
            } else {
                Some(
                    (
                        Record {
                            key: s.subrange(11, 11 + klen),
                            value: s.subrange(15 + klen, 15 + klen + vlen),
                            seqno: de64(s.subrange(0, 8)),
                            tombstone: s[8] == 1,
                        },
                        15 + klen + vlen,
                    ),
                )
            }
        }
    }
}

/// Encoding a record and reading it back gives the record, whatever follows it.
pub proof fn lemma_value_round_trip(r: Record, rest: Seq<u8>)
    requires
        record_fits(r),
    ensures
        parse_value(encode_value(r) + rest) == Some((r, encode_value(r).len() as int)),
{
    let s = encode_value(r) + rest;
    let klen = r.key.len() as int;
    let vlen = r.value.len() as int;
    lemma_be64(r.seqno);
    lemma_be16(r.key.len() as u16);
    lemma_be32(r.value.len() as u32);
    assert(s.subrange(0, 8) =~= be64(r.seqno));
    assert(s.subrange(9, 11) =~= be16(r.key.len() as u16));
    assert(s.subrange(11, 11 + klen) =~= r.key);
    assert(s.subrange(11 + klen, 15 + klen) =~= be32(r.value.len() as u32));
    assert(s.subrange(15 + klen, 15 + klen + vlen) =~= r.value);
}

impl Value {
    pub fn new(key: Vec<u8>, value: Vec<u8>, is_tombstone: bool, seqno: SeqNo) -> (r: Value)
        ensures
            r@ == (Record { key: key@, value: value@, seqno, tombstone: is_tombstone }),
    {
        Value { key, value, seqno, is_tombstone }
    }

    /// A copy with the same content.
    pub fn duplicate(&self) -> (r: Value)
        ensures
            r@ == self@,
    {
        let key = copy_range(self.key.as_slice(), 0, self.key.len());
        let value = copy_range(self.value.as_slice(), 0, self.value.len());
        assert(key@ =~= self.key@);
        assert(value@ =~= self.value@);
        Value { key, value, seqno: self.seqno, is_tombstone: self.is_tombstone }
    }

    /// Appends the encoding of this record to `out`.
    pub fn serialize(&self, out: &mut Vec<u8>)
        requires
            record_fits(self@),
        ensures
            final(out)@ == old(out)@ + encode_value(self@),
    {
        put_u64(out, self.seqno);
        out.push(if self.is_tombstone { 1u8 } else { 0u8 });
        put_u16(out, self.key.len() as u16);
        put_bytes(out, self.key.as_slice());
        put_u32(out, self.value.len() as u32);
        put_bytes(out, self.value.as_slice());
        assert(final(out)@ =~= old(out)@ + encode_value(self@));
    }

    /// Reads a record at `pos`; returns it with the position after it.
    pub fn deserialize(buf: &[u8], pos: usize) -> (r: Option<(Value, usize)>)
        requires
            pos <= buf@.len(),
        ensures
            match parse_value(buf@.subrange(pos as int, buf@.len() as int)) {
                Some((rec, n)) => r.is_some() && r.unwrap().0@ == rec && r.unwrap().1 == pos + n,
                None => r.is_none(),
            },
    {
        let ghost s = buf@.subrange(pos as int, buf@.len() as int);
        let avail = buf.len() - pos;
        if avail < 11 {
            return None;
        }
        if buf[pos + 8] > 1 {
            return None;
        }
        let seqno = get_u64(buf, pos);
        assert(buf@.subrange(pos as int, pos + 8) =~= s.subrange(0, 8));
        let klen = get_u16(buf, pos + 9) as usize;
        assert(buf@.subrange(pos + 9, pos + 11) =~= s.subrange(9, 11));
        if avail < 15 + klen {
            return None;
        }
        let vlen = get_u32(buf, pos + 11 + klen) as usize;
        assert(buf@.subrange(pos + 11 + klen, pos + 15 + klen) =~= s.subrange(
            11 + klen,
            15 + klen,
        ));
        if avail - 15 - klen < vlen {
            return None;
        }
        let key = copy_range(buf, pos + 11, pos + 11 + klen);
        assert(key@ =~= s.subrange(11, 11 + klen));
        let value = copy_range(buf, pos + 15 + klen, pos + 15 + klen + vlen);
        assert(value@ =~= s.subrange(15 + klen, 15 + klen + vlen));
        let is_tombstone = buf[pos + 8] == 1;
        Some((Value { key, value, seqno, is_tombstone }, pos + 15 + klen + vlen))
    }
}

} // verus!
