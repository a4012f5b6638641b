use vstd::prelude::*;

verus! {

/// The CRC32 (IEEE polynomial) of a byte sequence, as the `crc` crate
/// computes it. The checksum is a pure function of the bytes alone; its
/// definition is left uninterpreted here, so no claim stands about its
/// value on any particular input.
pub uninterp spec fn crc32_of(bytes: Seq<u8>) -> u32;

/// Relies on crc::crc32::checksum_ieee: the CRC32 checksum with the IEEE
/// polynomial, a deterministic function of the input bytes alone.
#[verifier::external_body]
pub fn crc32_ieee(bytes: &[u8]) -> (r: u32)
    ensures
        r == crc32_of(bytes@),
{
    crc::crc32::checksum_ieee(bytes)
}

} // verus!
