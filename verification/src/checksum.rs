//! The checksum that guards every payload.

use crc::{Crc, CRC_32_ISO_HDLC};
use vstd::prelude::*;

verus! {

/// The CRC-32 (IEEE 802.3 / ISO-HDLC) of a byte sequence.
pub uninterp spec fn crc32(bytes: Seq<u8>) -> u32;

/// Calls `crc::Crc::<u32>::checksum` on an instance made by `Crc::<u32>::new`
/// from the catalogue entry `CRC_32_ISO_HDLC`.
///
/// Trusted: the result is a function of the bytes alone, and `crc32` is the
/// name of that function. Nothing else is claimed of it.
#[verifier::external_body]
pub(crate) fn checksum(bytes: &[u8]) -> (sum: u32)
    ensures
        sum == crc32(bytes@),
{
    Crc::<u32>::new(&CRC_32_ISO_HDLC).checksum(bytes)
}

} // verus!
