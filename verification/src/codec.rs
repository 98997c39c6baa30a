//! Big-endian 8-byte integers, the one encoding both file formats use.

use vstd::prelude::*;

verus! {

/// The value of a byte string read as a big-endian unsigned integer:
/// the first byte is the most significant.
pub open spec fn be_val(s: Seq<u8>) -> int
    decreases s.len(),
{
    if s.len() == 0 {
        0
    } else {
        be_val(s.drop_last()) * 256 + s.last()
    }
}

/// The big-endian value of the 8 bytes of `s` starting at `i`.
pub open spec fn u64_be_at(s: Seq<u8>, i: int) -> int {
    be_val(s.subrange(i, i + 8))
}

/// A big-endian reading of any byte string is non-negative.
pub proof fn lemma_be_val_nonneg(s: Seq<u8>)
    ensures
        0 <= be_val(s),
    decreases s.len(),
{
    if s.len() > 0 {
        lemma_be_val_nonneg(s.drop_last());
    }
}

/// Relies on byteorder's `BigEndian::read_u64`: the first 8 bytes of the
/// slice, read in big-endian order (byteorder panics on a shorter slice,
/// which the precondition rules out).
#[verifier::external_body]
pub(crate) fn read_u64_be(buf: &[u8], pos: usize) -> (r: u64)
    requires
        pos + 8 <= buf@.len(),
    ensures
        r as int == u64_be_at(buf@, pos as int),
{
    <byteorder::BigEndian as byteorder::ByteOrder>::read_u64(&buf[pos..pos + 8])
}

/// Relies on byteorder's `BigEndian::write_u64`: it fills the 8-byte buffer
/// with the big-endian bytes of `v`, so reading them back gives `v`.
#[verifier::external_body]
pub(crate) fn u64_be_bytes(v: u64) -> (r: Vec<u8>)
    ensures
        r@.len() == 8,
        be_val(r@) == v as int,
{
    let mut buf: Vec<u8> = vec![0u8; 8];
    <byteorder::BigEndian as byteorder::ByteOrder>::write_u64(&mut buf, v);
    buf
}

} // verus!
