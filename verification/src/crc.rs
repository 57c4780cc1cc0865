//! The one checksum the log format relies on, behind a trusted wrapper.

use vstd::prelude::*;

verus! {

/// The CRC-32 (IEEE) checksum of a byte sequence, exactly as `crc32fast`
/// computes it.  The result is a function of the bytes alone; nothing further
/// is assumed about it.
pub uninterp spec fn crc32_of(bytes: Seq<u8>) -> u32;

/// Relies on `crc32fast::Hasher`: feeding it `header_without_crc` and then
/// `data` and finalizing yields the CRC-32 (IEEE) checksum of their
/// concatenation.
#[verifier::external_body]
pub(crate) fn compute_crc(header_without_crc: &[u8], data: &[u8]) -> (r: u32)
    ensures
        r == crc32_of(header_without_crc@ + data@),
{
    let mut hasher = crc32fast::Hasher::new();
    hasher.update(header_without_crc);
    hasher.update(data);
    hasher.finalize()
}

} // verus!
