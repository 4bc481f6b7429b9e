use vstd::prelude::*;
use crate::codec::{be32, de32, get_u32, lemma_be32, put_u32};
use crate::journal::{crc32, crc32_of};
use crate::run::records;
use crate::tree::Error;
use crate::value::{encode_value, lemma_value_round_trip, parse_value, record_fits, Record, Value};

verus! {

/// Encoded records one after another.
pub open spec fn encode_values(rs: Seq<Record>) -> Seq<u8>
    decreases rs.len(),
{
    if rs.len() == 0 {
        Seq::empty()
    } else {
        encode_value(rs[0]) + encode_values(rs.drop_first())
    }
}

/// A block: `item_count: u32 | items | crc32(items): u32`, big-endian.
pub open spec fn encode_block(rs: Seq<Record>) -> Seq<u8> {
    be32(rs.len() as u32) + encode_values(rs) + be32(crc32(encode_values(rs)))
}

/// Reads `count` records from the start of `s`, with the bytes they take.
pub open spec fn parse_values(s: Seq<u8>, count: nat) -> Option<(Seq<Record>, int)>
    decreases count,
{
    if count == 0 {
        Some((Seq::empty(), 0))
    } else {
        match parse_value(s) {
            Some((r, n)) => if 0 < n <= s.len() {
                match parse_values(s.subrange(n, s.len() as int), (count - 1) as nat) {
                    Some((rs, m)) => Some((seq![r] + rs, n + m)),
                    None => None,
                }
            } else {
                None
            },
            None => None,
        }
    }
}

/// What reading a block gives: its records, or the error.
pub open spec fn parse_block(s: Seq<u8>) -> Result<Seq<Record>, Error> {
    if s.len() < 4 {
        Err(Error::Deserialize)
    } else {
        match parse_values(s.subrange(4, s.len() as int), de32(s.subrange(0, 4)) as nat) {
            Some((rs, m)) => if s.len() < 8 + m {
                Err(Error::Deserialize)
            } else if de32(s.subrange(4 + m, 8 + m)) != crc32(s.subrange(4, 4 + m)) {
                Err(Error::CrcMismatch)
            } else {
                Ok(rs)
            },
            None => Err(Error::Deserialize),
        }
    }
}

pub proof fn lemma_values_round_trip(rs: Seq<Record>, rest: Seq<u8>)
    requires
        forall|i: int| 0 <= i < rs.len() ==> record_fits(#[trigger] rs[i]),
    ensures
        parse_values(encode_values(rs) + rest, rs.len()) == Some((rs, encode_values(rs).len() as int)),
    decreases rs.len(),
{
    if rs.len() > 0 {
        let tail = rs.drop_first();
        let s = encode_values(rs) + rest;
        assert(record_fits(rs[0]));
        assert(s =~= encode_value(rs[0]) + (encode_values(tail) + rest));
        lemma_value_round_trip(rs[0], encode_values(tail) + rest);
        let n = encode_value(rs[0]).len() as int;
        assert(s.subrange(n, s.len() as int) =~= encode_values(tail) + rest);
        assert forall|i: int| 0 <= i < tail.len() implies record_fits(#[trigger] tail[i]) by {
            assert(tail[i] == rs[i + 1]);
        }
        lemma_values_round_trip(tail, rest);
        assert(seq![rs[0]] + tail =~= rs);
    }
}

/// Encoding a block and reading it back gives its records, checksum included.
pub proof fn lemma_block_round_trip(rs: Seq<Record>)
    requires
        rs.len() <= u32::MAX,
        forall|i: int| 0 <= i < rs.len() ==> record_fits(#[trigger] rs[i]),
    ensures
        parse_block(encode_block(rs)) == Ok::<Seq<Record>, Error>(rs),
{
    let body = encode_values(rs);
    let s = encode_block(rs);
    let m = body.len() as int;
    lemma_be32(rs.len() as u32);
    lemma_be32(crc32(body));
    assert(s.subrange(0, 4) =~= be32(rs.len() as u32));
    assert(s.subrange(4, s.len() as int) =~= body + be32(crc32(body)));
    lemma_values_round_trip(rs, be32(crc32(body)));
    assert(s.subrange(4 + m, 8 + m) =~= be32(crc32(body)));
    assert(s.subrange(4, 4 + m) =~= body);
}

/// Encodes `values` as a block.
pub fn serialize_block(values: &Vec<Value>) -> (r: Vec<u8>)
    requires
        values@.len() <= u32::MAX,
        forall|i: int| 0 <= i < values@.len() ==> record_fits((#[trigger] values@[i])@),
    ensures
        r@ == encode_block(records(values@)),
{
    let ghost rs = records(values@);
    let mut body: Vec<u8> = Vec::new();
    let mut i: usize = 0;
    assert(rs.subrange(0, rs.len() as int) =~= rs);
    assert(body@ + encode_values(rs) =~= encode_values(rs));
    while i < values.len()
        invariant
            rs == records(values@),
            0 <= i <= values@.len(),
            forall|k: int| 0 <= k < values@.len() ==> record_fits((#[trigger] values@[k])@),
            body@ + encode_values(rs.subrange(i as int, rs.len() as int)) == encode_values(rs),
        decreases values@.len() - i,
    {
        let ghost b0 = body@;
        values[i].serialize(&mut body);
        let ghost sub = rs.subrange(i as int, rs.len() as int);
        assert(sub[0] == values@[i as int]@);
        assert(sub.drop_first() =~= rs.subrange(i + 1, rs.len() as int));
        assert(body@ + encode_values(rs.subrange(i + 1, rs.len() as int)) =~= b0 + encode_values(sub));
        i = i + 1;
    }
    assert(encode_values(rs.subrange(i as int, rs.len() as int)) =~= Seq::<u8>::empty());
    assert(body@ =~= encode_values(rs));
    let crc = crc32_of(body.as_slice(), 0, body.len());
    assert(body@.subrange(0, body@.len() as int) =~= body@);
    let mut out: Vec<u8> = Vec::new();
    put_u32(&mut out, values.len() as u32);
    crate::codec::put_bytes(&mut out, body.as_slice());
    put_u32(&mut out, crc);
    assert(out@ =~= encode_block(rs));
    out
}

/// Reads a block: its records, `Deserialize` where the bytes do not hold
/// them, `CrcMismatch` where the checksum differs.
pub fn deserialize_block(buf: &[u8]) -> (r: Result<Vec<Value>, Error>)
    ensures
        match parse_block(buf@) {
            Ok(rs) => r.is_ok() && records(r.unwrap()@) == rs,
            Err(e) => r == Err::<Vec<Value>, Error>(e),
        },
{
    if buf.len() < 4 {
        return Err(Error::Deserialize);
    }
    let count = get_u32(buf, 0);
    assert(buf@.subrange(0, 4) == buf@.subrange(0, 4));
    let ghost whole = buf@.subrange(4, buf@.len() as int);
    let mut out: Vec<Value> = Vec::new();
    let mut pos: usize = 4;
    let mut i: u32 = 0;
    assert(buf@.subrange(4, buf@.len() as int) =~= whole);
    while i < count
        invariant
            4 <= pos <= buf@.len(),
            i <= count,
            whole == buf@.subrange(4, buf@.len() as int),
            count == de32(buf@.subrange(0, 4)),
            parse_values(whole, count as nat) matches Some((rs, m)) ==> {
                &&& parse_values(buf@.subrange(pos as int, buf@.len() as int), (count - i) as nat) matches Some((rest, mr))
                &&& records(out@) + rest == rs
                &&& (pos - 4) + mr == m
            },
            parse_values(whole, count as nat).is_none() ==> parse_values(
                buf@.subrange(pos as int, buf@.len() as int),
                (count - i) as nat,
            ).is_none(),
        decreases count - i,
    {
        let ghost s = buf@.subrange(pos as int, buf@.len() as int);
        match Value::deserialize(buf, pos) {
            Some((v, next)) => {
                let ghost n = next - pos;
                assert(s.subrange(n, s.len() as int) =~= buf@.subrange(next as int, buf@.len() as int));
                let ghost o0 = records(out@);
                out.push(v);
                assert(records(out@) =~= o0.push(v@));
                proof {
                    if let Some((rs, m)) = parse_values(whole, count as nat) {
                        let (rest, mr) = parse_values(s, (count - i) as nat).unwrap();
                        let (rest2, mr2) = parse_values(buf@.subrange(next as int, buf@.len() as int), (count - i - 1) as nat).unwrap();
                        assert(rest == seq![v@] + rest2);
                        assert(records(out@) + rest2 =~= o0 + rest);
                    }
                }
                pos = next;
            },
            None => {
                return Err(Error::Deserialize);
            },
        }
        i = i + 1;
    }
    let ghost tailing = buf@.subrange(pos as int, buf@.len() as int);
    assert(parse_values(tailing, 0) == Some((Seq::<Record>::empty(), 0int)));
    assert(records(out@) + Seq::<Record>::empty() =~= records(out@));
    if buf.len() - pos < 4 {
        return Err(Error::Deserialize);
    }
    let stored = get_u32(buf, pos);
    let sum = crc32_of(buf, 4, pos);
    if stored != sum {
        return Err(Error::CrcMismatch);
    }
    Ok(out)
}


} // verus!
