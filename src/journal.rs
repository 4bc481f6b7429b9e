use vstd::prelude::*;
use crate::codec::{be32, copy_range, de32, get_u32, lemma_be32, put_bytes, put_u32};
use crate::run::records;
use crate::value::{encode_value, lemma_value_round_trip, parse_value, record_fits, Record, Value};

verus! {

/// One step of the reflected CRC-32 (polynomial 0xEDB88320) over one bit.
pub open spec fn crc_bit(c: u32) -> u32 {
    if c & 1u32 == 1u32 {
        (c >> 1u32) ^ 0xEDB88320u32
    } else {
        c >> 1u32
    }
}

pub open spec fn crc_byte(c: u32, b: u8) -> u32 {
    crc_bit(crc_bit(crc_bit(crc_bit(crc_bit(crc_bit(crc_bit(crc_bit(c ^ (b as u32)))))))))
}

pub open spec fn crc_update(c: u32, s: Seq<u8>) -> u32
    decreases s.len(),
{
    if s.len() == 0 {
        c
    } else {
        crc_byte(crc_update(c, s.drop_last()), s.last())
    }
}

/// CRC-32 (IEEE) of a byte string.
pub open spec fn crc32(s: Seq<u8>) -> u32 {
    crc_update(0xFFFFFFFFu32, s) ^ 0xFFFFFFFFu32
}

fn crc_bit_exec(c: u32) -> (r: u32)
    ensures
        r == crc_bit(c),
{
    if c & 1 == 1 {
        (c >> 1) ^ 0xEDB88320
    } else {
        c >> 1
    }
}

/// CRC-32 of `buf[start..end]`.
pub fn crc32_of(buf: &[u8], start: usize, end: usize) -> (r: u32)
    requires
        start <= end <= buf@.len(),
    ensures
        r == crc32(buf@.subrange(start as int, end as int)),
{
    let mut c: u32 = 0xFFFFFFFF;
    let mut i: usize = start;
    while i < end
        invariant
            start <= i <= end <= buf@.len(),
            c == crc_update(0xFFFFFFFFu32, buf@.subrange(start as int, i as int)),
        decreases end - i,
    {
        let mut d = c ^ (buf[i] as u32);
        d = crc_bit_exec(d);
        d = crc_bit_exec(d);
        d = crc_bit_exec(d);
        d = crc_bit_exec(d);
        d = crc_bit_exec(d);
        d = crc_bit_exec(d);
        d = crc_bit_exec(d);
        d = crc_bit_exec(d);
        let ghost next = buf@.subrange(start as int, i + 1);
        assert(next.drop_last() =~= buf@.subrange(start as int, i as int));
        assert(next.last() == buf@[i as int]);
        c = d;
        i = i + 1;
    }
    c ^ 0xFFFFFFFF
}

/// A journal record: `len: u32 | crc32: u32 | encoded record`.
pub open spec fn encode_record(r: Record) -> Seq<u8> {
    be32(encode_value(r).len() as u32) + be32(crc32(encode_value(r))) + encode_value(r)
}

/// Journal records one after another.
pub open spec fn encode_all(rs: Seq<Record>) -> Seq<u8>
    decreases rs.len(),
{
    if rs.len() == 0 {
        Seq::empty()
    } else {
        encode_record(rs[0]) + encode_all(rs.drop_first())
    }
}

/// Reads a journal record at the start of `s`: `None` if it is cut short, its
/// checksum does not match, or its payload is not exactly one record.
#[verifier::opaque]
pub open spec fn parse_record(s: Seq<u8>) -> Option<(Record, int)> {
    if s.len() < 8 {
        None
    } else {
        let len = de32(s.subrange(0, 4)) as int;
        if s.len() < 8 + len {
            None
        } else {
            let payload = s.subrange(8, 8 + len);
            if crc32(payload) != de32(s.subrange(4, 8)) {
                None
            } else {
                match parse_value(payload) {
                    Some((r, n)) => if n == len {
                        Some((r, 8 + len))
                    } else {
                        None
                    },
                    None => None,
                }
            }
        }
    }
}

/// The records recovered from journal bytes: read one after another until
/// the first that is cut short or damaged.
pub open spec fn replay(s: Seq<u8>) -> Seq<Record>
    decreases s.len(),
{
    match parse_record(s) {
        Some((r, n)) => if 0 < n <= s.len() {
            seq![r] + replay(s.subrange(n, s.len() as int))
        } else {
            Seq::empty()
        },
        None => Seq::empty(),
    }
}

/// A journal record is read back as the record it encodes, whatever follows it.
#[verifier::rlimit(40)]
pub proof fn lemma_record_round_trip(r: Record, rest: Seq<u8>)
    requires
        record_fits(r),
    ensures
        parse_record(encode_record(r) + rest) == Some((r, encode_record(r).len() as int)),
{
    reveal(parse_record);
    let e = encode_value(r);
    let s = encode_record(r) + rest;
    let len = e.len() as int;
    lemma_be32(e.len() as u32);
    lemma_be32(crc32(e));
    lemma_value_round_trip(r, Seq::empty());
    assert(e + Seq::<u8>::empty() =~= e);
    assert(s.subrange(0, 4) =~= be32(e.len() as u32));
    assert(de32(s.subrange(0, 4)) as int == len);
    assert(s.subrange(4, 8) =~= be32(crc32(e)));
    let payload = s.subrange(8, 8 + len);
    assert(payload =~= e);
    assert(crc32(payload) == de32(s.subrange(4, 8)));
    assert(parse_value(payload) == Some((r, len)));
}

/// Replaying written records, followed by other bytes, gives the records and
/// then what the other bytes give.
pub proof fn lemma_replay_append(rs: Seq<Record>, t: Seq<u8>)
    requires
        forall|i: int| 0 <= i < rs.len() ==> record_fits(#[trigger] rs[i]),
    ensures
        replay(encode_all(rs) + t) == rs + replay(t),
    decreases rs.len(),
{
    if rs.len() == 0 {
        assert(encode_all(rs) + t =~= t);
        assert(rs + replay(t) =~= replay(t));
    } else {
        let r = rs[0];
        let rest = rs.drop_first();
        let tail = encode_all(rest) + t;
        let s = encode_all(rs) + t;
        assert(s =~= encode_record(r) + tail);
        assert(record_fits(rs[0]));
        lemma_record_round_trip(r, tail);
        let n = encode_record(r).len() as int;
        assert(s.subrange(n, s.len() as int) =~= tail);
        assert(replay(s) == seq![r] + replay(tail));
        assert forall|i: int| 0 <= i < rest.len() implies record_fits(#[trigger] rest[i]) by {
            assert(rest[i] == rs[i + 1]);
        }
        lemma_replay_append(rest, t);
        assert(rs =~= seq![r] + rest);
        assert(seq![r] + (rest + replay(t)) =~= rs + replay(t));
    }
}

/// Written records are all recovered, with their sequence numbers.
pub proof fn lemma_replay_written(rs: Seq<Record>)
    requires
        forall|i: int| 0 <= i < rs.len() ==> record_fits(#[trigger] rs[i]),
    ensures
        replay(encode_all(rs)) == rs,
{
    lemma_replay_append(rs, Seq::empty());
    assert(encode_all(rs) + Seq::<u8>::empty() =~= encode_all(rs));
    assert(replay(Seq::<u8>::empty()) == Seq::<Record>::empty());
    assert(rs + Seq::<Record>::empty() =~= rs);
}

/// A journal whose last record was cut short recovers every full record before it.
pub proof fn lemma_replay_truncated(rs: Seq<Record>, last: Record, cut: int)
    requires
        forall|i: int| 0 <= i < rs.len() ==> record_fits(#[trigger] rs[i]),
        record_fits(last),
        0 <= cut < encode_record(last).len(),
    ensures
        replay(encode_all(rs) + encode_record(last).subrange(0, cut)) == rs,
{
    let t = encode_record(last).subrange(0, cut);
    lemma_replay_append(rs, t);
    reveal(parse_record);
    let e = encode_value(last);
    lemma_be32(e.len() as u32);
    if t.len() >= 8 {
        assert(t.subrange(0, 4) =~= be32(e.len() as u32));
    }
    assert(parse_record(t).is_none());
    assert(rs + Seq::<Record>::empty() =~= rs);
}

/// A journal record read takes at least its header and at most what there is.
pub proof fn lemma_parse_record_len(s: Seq<u8>)
    ensures
        match parse_record(s) {
            Some((_, n)) => 8 <= n <= s.len(),
            None => true,
        },
{
    reveal(parse_record);
}

/// Appends the journal record of `v` to `out`.
pub fn append_record(out: &mut Vec<u8>, v: &Value)
    requires
        record_fits(v@),
    ensures
        final(out)@ == old(out)@ + encode_record(v@),
{
    let mut payload: Vec<u8> = Vec::new();
    v.serialize(&mut payload);
    assert(payload@ =~= encode_value(v@));
    let len = payload.len() as u32;
    let crc = crc32_of(payload.as_slice(), 0, payload.len());
    assert(payload@.subrange(0, payload@.len() as int) =~= payload@);
    put_u32(out, len);
    put_u32(out, crc);
    put_bytes(out, payload.as_slice());
    assert(final(out)@ =~= old(out)@ + encode_record(v@));
}

/// Reads the journal record at `pos`; returns it with the position after it.
pub fn read_record(buf: &[u8], pos: usize) -> (r: Option<(Value, usize)>)
    requires
        pos <= buf@.len(),
    ensures
        match parse_record(buf@.subrange(pos as int, buf@.len() as int)) {
            Some((rec, n)) => r.is_some() && r.unwrap().0@ == rec && r.unwrap().1 == pos + n,
            None => r.is_none(),
        },
{
    let ghost s = buf@.subrange(pos as int, buf@.len() as int);
    reveal(parse_record);
    let avail = buf.len() - pos;
    if avail < 8 {
        return None;
    }
    let len = get_u32(buf, pos) as usize;
    assert(buf@.subrange(pos as int, pos + 4) =~= s.subrange(0, 4));
    if avail - 8 < len {
        return None;
    }
    let crc = get_u32(buf, pos + 4);
    assert(buf@.subrange(pos + 4, pos + 8) =~= s.subrange(4, 8));
    let sum = crc32_of(buf, pos + 8, pos + 8 + len);
    assert(buf@.subrange(pos + 8, pos + 8 + len) =~= s.subrange(8, 8 + len));
    if sum != crc {
        return None;
    }
    let payload = copy_range(buf, pos + 8, pos + 8 + len);
    assert(payload@ =~= s.subrange(8, 8 + len));
    assert(payload@.subrange(0, payload@.len() as int) =~= payload@);
    match Value::deserialize(payload.as_slice(), 0) {
        Some((v, n)) => {
            if n == len {
                Some((v, pos + 8 + len))
            } else {
                None
            }
        },
        None => None,
    }
}

/// The records of a journal, up to the first that is cut short or damaged.
pub fn recover_journal(buf: &[u8]) -> (r: Vec<Value>)
    ensures
        records(r@) == replay(buf@),
{
    let mut out: Vec<Value> = Vec::new();
    let mut pos: usize = 0;
    assert(buf@.subrange(0, buf@.len() as int) =~= buf@);
    while pos < buf.len()
        invariant
            pos <= buf@.len(),
            records(out@) + replay(buf@.subrange(pos as int, buf@.len() as int)) == replay(buf@),
        decreases buf@.len() - pos,
    {
        let ghost s = buf@.subrange(pos as int, buf@.len() as int);
        match read_record(buf, pos) {
            Some((v, next)) => {
                proof {
                    lemma_parse_record_len(s);
                }
                let ghost n = next - pos;
                assert(s.subrange(n, s.len() as int) =~= buf@.subrange(next as int, buf@.len() as int));
                let ghost o0 = records(out@);
                out.push(v);
                assert(records(out@) =~= o0.push(v@));
                assert(records(out@) + replay(buf@.subrange(next as int, buf@.len() as int)) =~= o0
                    + replay(s));
                pos = next;
            },
            None => {
                assert(records(out@) + replay(s) =~= records(out@));
                return out;
            },
        }
    }
    let ghost e = buf@.subrange(pos as int, buf@.len() as int);
    assert(e.len() == 0);
    assert(replay(e) == Seq::<Record>::empty());
    assert(records(out@) + Seq::<Record>::empty() =~= records(out@));
    out
}

} // verus!
