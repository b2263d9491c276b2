//! The CRC-32 engine: the checksum that validates and regenerates chunk trailers.

use vstd::prelude::*;

verus! {

/// The CRC-32 (ISO-HDLC polynomial, as used by zlib and mandated by the PNG
/// specification) of a byte sequence.  The checksum is a fixed function of the
/// bytes alone; its defining polynomial arithmetic is left unstated here, and
/// every contract of this crate speaks of the checksum through this name.
pub uninterp spec fn crc32_of(bytes: Seq<u8>) -> u32;

/// Relies on `crc::Crc::<u32>::checksum` with `crc::CRC_32_ISO_HDLC`: a table-driven
/// CRC-32 computation whose result depends on the input bytes alone.
#[verifier::external_body]
pub(crate) fn crc32_checksum(bytes: &Vec<u8>) -> (r: u32)
    ensures
        r == crc32_of(bytes@),
{
    crc::Crc::<u32>::new(&crc::CRC_32_ISO_HDLC).checksum(bytes.as_slice())
}

} // verus!
