use vstd::prelude::*;
use crate::tree::Error;

verus! {

/// Bytes of the header that starts every block file.
pub const HEADER_LEN: usize = 5;

/// The header: the magic bytes `LSM`, then the format version, 1, as a big-endian `u16`.
pub open spec fn header() -> Seq<u8> {
    seq![76u8, 83u8, 77u8, 0u8, 1u8]
}

/// Appends the header to `out`.
pub fn write_header(out: &mut Vec<u8>)
    ensures
        final(out)@ == old(out)@ + header(),
{
    out.push(76);
    out.push(83);
    out.push(77);
    out.push(0);
    out.push(1);
    assert(final(out)@ =~= old(out)@ + header());
}

/// Checks that `buf` starts with the header; returns where the content starts.
pub fn check_header(buf: &[u8]) -> (r: Result<usize, Error>)
    ensures
        r.is_ok() == (buf@.len() >= HEADER_LEN && buf@.subrange(0, HEADER_LEN as int) == header()),
        r.is_ok() ==> r.unwrap() == HEADER_LEN,
        r.is_err() ==> r == Err::<usize, Error>(Error::VersionMismatch),
{
    if buf.len() < HEADER_LEN {
        return Err(Error::VersionMismatch);
    }
    if buf[0] == 76 && buf[1] == 83 && buf[2] == 77 && buf[3] == 0 && buf[4] == 1 {
        assert(buf@.subrange(0, 5) =~= header());
        Ok(HEADER_LEN)
    } else {
        assert(buf@.subrange(0, 5)[0] == buf@[0]);
        assert(buf@.subrange(0, 5)[1] == buf@[1]);
        assert(buf@.subrange(0, 5)[2] == buf@[2]);
        assert(buf@.subrange(0, 5)[3] == buf@[3]);
        assert(buf@.subrange(0, 5)[4] == buf@[4]);
        Err(Error::VersionMismatch)
    }
}

} // verus!
