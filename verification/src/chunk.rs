//! The chunk codec: one chunk decoded from a byte stream, one chunk encoded to bytes.

use vstd::prelude::*;
use crate::bytes::{be32, copy_range, lemma_be32_bounds, lemma_be32_of_u32_be_bytes,
    lemma_u32_be_bytes_of_be32, push_be_u32, read_be_u32, u32_be_bytes};
use crate::checksum::{crc32_checksum, crc32_of};
use crate::error::PngError;

verus! {

/// One chunk as decoded: its four-byte type tag, its payload, and the CRC
/// trailer as it stood on disk.  The stored CRC is kept as read, so that
/// copy-through paths reproduce bytes exactly; only newly built chunks get a
/// freshly computed CRC.
#[derive(Debug, PartialEq, Eq)]
pub struct Chunk {
    pub ctype: Vec<u8>,
    pub data: Vec<u8>,
    pub crc: u32,
}

/// The mathematical image of a chunk.
pub ghost struct ChunkV {
    pub ctype: Seq<u8>,
    pub data: Seq<u8>,
    pub crc: u32,
}

impl View for Chunk {
    type V = ChunkV;

    open spec fn view(&self) -> ChunkV {
        ChunkV { ctype: self.ctype@, data: self.data@, crc: self.crc }
    }
}

/// A chunk whose tag has the fixed width and whose payload length fits the
/// 32-bit length field.
pub open spec fn chunk_wf(c: ChunkV) -> bool {
    c.ctype.len() == 4 && c.data.len() <= 0xFFFFFFFF
}

/// The wire encoding of a chunk:
/// `length(4, big-endian) | type(4) | data | crc(4, big-endian)`.
#[verifier::opaque]
pub open spec fn chunk_enc(c: ChunkV) -> Seq<u8> {
    u32_be_bytes(c.data.len() as u32) + c.ctype + c.data + u32_be_bytes(c.crc)
}

/// The four-byte tag of the terminal chunk.
pub open spec fn iend_tag() -> Seq<u8> {
    seq![0x49u8, 0x45u8, 0x4eu8, 0x44u8]
}

pub open spec fn is_iend(c: ChunkV) -> bool {
    c.ctype == iend_tag()
}

/// The declared payload length of the chunk starting at `i`.
pub open spec fn chunk_len_at(s: Seq<u8>, i: int) -> int {
    be32(s.subrange(i, i + 4))
}

/// Enough bytes remain at `i` for the full chunk its header declares.
pub open spec fn parse_ok_at(s: Seq<u8>, i: int) -> bool {
    0 <= i && i + 8 <= s.len() && i + 12 + chunk_len_at(s, i) <= s.len()
}

/// The first position after the chunk starting at `i`.
pub open spec fn chunk_end(s: Seq<u8>, i: int) -> int {
    i + 12 + chunk_len_at(s, i)
}

/// The chunk starting at `i`, read fieldwise.
pub open spec fn chunk_at(s: Seq<u8>, i: int) -> ChunkV {
    ChunkV {
        ctype: s.subrange(i + 4, i + 8),
        data: s.subrange(i + 8, i + 8 + chunk_len_at(s, i)),
        crc: be32(s.subrange(i + 8 + chunk_len_at(s, i), i + 12 + chunk_len_at(s, i))) as u32,
    }
}

/// A decoded chunk re-encodes to exactly the bytes it was read from: the
/// ground for copy-through rewriting.
pub proof fn lemma_chunk_at_enc(s: Seq<u8>, i: int)
    requires
        parse_ok_at(s, i),
    ensures
        chunk_wf(chunk_at(s, i)),
        chunk_enc(chunk_at(s, i)) == s.subrange(i, chunk_end(s, i)),
{
    reveal(chunk_enc);
    let c = chunk_at(s, i);
    let n = chunk_len_at(s, i);
    lemma_be32_bounds(s.subrange(i, i + 4));
    lemma_u32_be_bytes_of_be32(s.subrange(i, i + 4));
    lemma_be32_bounds(s.subrange(i + 8 + n, i + 12 + n));
    lemma_u32_be_bytes_of_be32(s.subrange(i + 8 + n, i + 12 + n));
    assert(c.data.len() == n);
    assert(u32_be_bytes(c.data.len() as u32) == s.subrange(i, i + 4));
    assert(u32_be_bytes(c.crc) == s.subrange(i + 8 + n, i + 12 + n));
    assert(chunk_enc(c) =~= s.subrange(i, chunk_end(s, i)));
}

/// The chunk that `encode_chunk` builds from a tag and a payload: its CRC is
/// computed over `type ‖ data`, as the PNG specification asks.
pub open spec fn built_chunk(t: Seq<u8>, d: Seq<u8>) -> ChunkV {
    ChunkV { ctype: t, data: d, crc: crc32_of(t + d) }
}

/// Builds `length(4) ‖ type(4) ‖ data ‖ crc(4)` with `length == data.len()`
/// and `crc` freshly computed over `type ‖ data`.  This is the only path that
/// computes a checksum; chunks copied through keep their stored trailer.
pub fn encode_chunk(ctype: &Vec<u8>, data: &Vec<u8>) -> (r: Vec<u8>)
    requires
        ctype@.len() == 4,
        data@.len() <= 0xFFFFFFFF,
    ensures
        r@ == chunk_enc(built_chunk(ctype@, data@)),
{
    let mut td: Vec<u8> = Vec::new();
    copy_range(ctype, 0, ctype.len(), &mut td);
    copy_range(data, 0, data.len(), &mut td);
    proof {
        assert(td@ =~= ctype@ + data@);
    }
    let crc = crc32_checksum(&td);
    let mut out: Vec<u8> = Vec::new();
    push_be_u32(&mut out, data.len() as u32);
    copy_range(ctype, 0, ctype.len(), &mut out);
    copy_range(data, 0, data.len(), &mut out);
    push_be_u32(&mut out, crc);
    proof {
        reveal(chunk_enc);
        assert(out@ =~= chunk_enc(built_chunk(ctype@, data@)));
    }
    out
}

/// Reads the chunk at `start`: 4 bytes big-endian length, 4 bytes type,
/// `length` payload bytes, 4 bytes big-endian CRC, failing when fewer bytes
/// remain than the header declares.  The CRC is stored as read, not verified.
pub fn decode_chunk(bytes: &Vec<u8>, start: usize) -> (r: Result<(Chunk, usize), PngError>)
    requires
        start <= bytes@.len(),
    ensures
        match r {
            Ok(p) => parse_ok_at(bytes@, start as int) && p.0@ == chunk_at(bytes@, start as int)
                && chunk_wf(p.0@) && p.1 == chunk_end(bytes@, start as int) && start < p.1
                <= bytes@.len(),
            Err(e) => e == PngError::TruncatedChunk && !parse_ok_at(bytes@, start as int),
        },
{
    let n_total = bytes.len();
    if n_total - start < 8 {
        return Err(PngError::TruncatedChunk);
    }
    let len = read_be_u32(bytes, start);
    let rem = n_total - (start + 8);
    if rem < 4 || (len as usize) > rem - 4 {
        proof {
            lemma_be32_bounds(bytes@.subrange(start as int, start as int + 4));
        }
        return Err(PngError::TruncatedChunk);
    }
    let dstart = start + 8;
    let dend = dstart + (len as usize);
    let mut ctype: Vec<u8> = Vec::new();
    copy_range(bytes, start + 4, start + 8, &mut ctype);
    let mut data: Vec<u8> = Vec::new();
    copy_range(bytes, dstart, dend, &mut data);
    let crc = read_be_u32(bytes, dend);
    let end = dend + 4;
    proof {
        lemma_be32_bounds(bytes@.subrange(dend as int, dend as int + 4));
        assert(ctype@ =~= chunk_at(bytes@, start as int).ctype);
        assert(data@ =~= chunk_at(bytes@, start as int).data);
    }
    Ok((Chunk { ctype, data, crc }, end))
}

/// Round trip: decoding an encoded chunk yields the type and data it was
/// built from, and its CRC is the checksum of `type ‖ data`.
pub proof fn lemma_encode_then_decode(t: Seq<u8>, d: Seq<u8>)
    requires
        t.len() == 4,
        d.len() <= 0xFFFFFFFF,
    ensures
        parse_ok_at(chunk_enc(built_chunk(t, d)), 0),
        chunk_at(chunk_enc(built_chunk(t, d)), 0) == built_chunk(t, d),
        chunk_at(chunk_enc(built_chunk(t, d)), 0).ctype == t,
        chunk_at(chunk_enc(built_chunk(t, d)), 0).data == d,
        chunk_at(chunk_enc(built_chunk(t, d)), 0).crc == crc32_of(t + d),
        chunk_end(chunk_enc(built_chunk(t, d)), 0) == chunk_enc(built_chunk(t, d)).len(),
{
    reveal(chunk_enc);
    let c = built_chunk(t, d);
    let e = chunk_enc(c);
    assert(e.subrange(0, 4) =~= u32_be_bytes(d.len() as u32));
    lemma_be32_of_u32_be_bytes(d.len() as u32);
    assert(chunk_len_at(e, 0) == d.len());
    assert(e.subrange(4, 8) =~= t);
    assert(e.subrange(8, 8 + d.len() as int) =~= d);
    assert(e.subrange(8 + d.len() as int, 12 + d.len() as int) =~= u32_be_bytes(c.crc));
    lemma_be32_of_u32_be_bytes(c.crc);
}

} // verus!
