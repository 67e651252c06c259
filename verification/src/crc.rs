//! The 32-bit checksum that places both nodes and keys on the ring.
use vstd::prelude::*;

verus! {

/// The CRC-32 (IEEE 802.3, as in zlib) checksum of a byte string.
///
/// The value is computed by the `crc32fast` crate and is not defined here:
/// proofs may rely on it being a function of the bytes and on nothing else.
pub uninterp spec fn crc32(bytes: Seq<u8>) -> u32;

/// Calls `crc32fast::hash`, which feeds the whole slice to a fresh hasher and
/// returns its final state. The contract names that result [`crc32`]; that the
/// crate computes the IEEE checksum is taken on trust.
#[verifier::external_body]
pub(crate) fn checksum(bytes: &[u8]) -> (sum: u32)
    ensures
        sum == crc32(bytes@),
{
    crc32fast::hash(bytes)
}

} // verus!
