//! Record checksums.

use vstd::prelude::*;

verus! {

/// The CRC-32 of a run of bytes, as `crc32fast::hash` computes it.
pub uninterp spec fn crc32(data: Seq<u8>) -> u32;

/// `crc32fast::hash`: a function of the bytes alone, named by [`crc32`].
#[verifier::external_body]
pub(crate) fn crc32_of(data: &[u8]) -> (sum: u32)
    ensures
        sum == crc32(data@),
{
    crc32fast::hash(data)
}

} // verus!
