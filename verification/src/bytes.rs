//! Byte-level helpers: the PNG signature and big-endian 32-bit fields.

use vstd::prelude::*;

verus! {

/// The eight fixed bytes that open every PNG file.
#[verifier::opaque]
pub open spec fn png_signature() -> Seq<u8> {
    seq![0x89u8, 0x50u8, 0x4eu8, 0x47u8, 0x0du8, 0x0au8, 0x1au8, 0x0au8]
}

/// A byte stream starts with the PNG signature.
pub open spec fn has_signature(s: Seq<u8>) -> bool {
    s.len() >= 8 && s.subrange(0, 8) == png_signature()
}

/// The value of four bytes read big-endian.
pub open spec fn be32(s: Seq<u8>) -> int
    recommends
        s.len() == 4,
{
    (s[0] as int) * 0x1000000 + (s[1] as int) * 0x10000 + (s[2] as int) * 0x100 + (s[3] as int)
}

/// The four big-endian bytes of a 32-bit value.
pub open spec fn u32_be_bytes(v: u32) -> Seq<u8> {
    seq![
        (v / 0x1000000) as u8,
        ((v / 0x10000) % 0x100) as u8,
        ((v / 0x100) % 0x100) as u8,
        (v % 0x100) as u8,
    ]
}

pub proof fn lemma_be32_bounds(s: Seq<u8>)
    requires
        s.len() == 4,
    ensures
        0 <= be32(s) <= 0xFFFFFFFF,
{
}

/// Reading four big-endian bytes back gives the value they were made from.
pub proof fn lemma_be32_of_u32_be_bytes(v: u32)
    ensures
        be32(u32_be_bytes(v)) == v,
{
    assert(be32(u32_be_bytes(v)) == v) by (nonlinear_arith);
}

/// The four big-endian bytes of the value read from four bytes are those bytes.
pub proof fn lemma_u32_be_bytes_of_be32(s: Seq<u8>)
    requires
        s.len() == 4,
    ensures
        u32_be_bytes(be32(s) as u32) == s,
{
    let v = (be32(s) as u32);
    assert(v == (s[0] as int) * 0x1000000 + (s[1] as int) * 0x10000 + (s[2] as int) * 0x100 + (
    s[3] as int));
    assert(v / 0x1000000 == s[0] && (v / 0x10000) % 0x100 == s[1] && (v / 0x100) % 0x100 == s[2]
        && v % 0x100 == s[3]) by (nonlinear_arith)
        requires
            v == (s[0] as int) * 0x1000000 + (s[1] as int) * 0x10000 + (s[2] as int) * 0x100 + (
            s[3] as int),
            s[0] < 0x100,
            s[1] < 0x100,
            s[2] < 0x100,
            s[3] < 0x100,
    ;
    assert(u32_be_bytes(v) =~= s);
}

/// Reads the big-endian 32-bit field at `i`.
pub fn read_be_u32(bytes: &Vec<u8>, i: usize) -> (r: u32)
    requires
        i + 4 <= bytes@.len(),
    ensures
        r == be32(bytes@.subrange(i as int, i as int + 4)),
{
    let n = bytes.len();
    let b0 = bytes[i] as u32;
    let b1 = bytes[i + 1] as u32;
    let b2 = bytes[i + 2] as u32;
    let b3 = bytes[i + 3] as u32;
    let r = b0 * 0x1000000 + b1 * 0x10000 + b2 * 0x100 + b3;
    proof {
        let s = bytes@.subrange(i as int, i as int + 4);
        assert(s[0] == bytes@[i as int] && s[1] == bytes@[i as int + 1] && s[2] == bytes@[i as int
            + 2] && s[3] == bytes@[i as int + 3]);
    }
    r
}

/// Appends the big-endian 32-bit encoding of `v`.
pub fn push_be_u32(out: &mut Vec<u8>, v: u32)
    ensures
        final(out)@ == old(out)@ + u32_be_bytes(v),
{
    out.push((v / 0x1000000) as u8);
    out.push(((v / 0x10000) % 0x100) as u8);
    out.push(((v / 0x100) % 0x100) as u8);
    out.push((v % 0x100) as u8);
    proof {
        assert(out@ =~= old(out)@ + u32_be_bytes(v));
    }
}

/// Appends `src[from..to]` to `out`.
pub fn copy_range(src: &Vec<u8>, from: usize, to: usize, out: &mut Vec<u8>)
    requires
        from <= to <= src@.len(),
    ensures
        final(out)@ == old(out)@ + src@.subrange(from as int, to as int),
{
    let mut i = from;
    while i < to
        invariant
            from <= i <= to <= src@.len(),
            out@ == old(out)@ + src@.subrange(from as int, i as int),
        decreases to - i,
    {
        out.push(src[i]);
        i = i + 1;
        proof {
            assert(out@ =~= old(out)@ + src@.subrange(from as int, i as int));
        }
    }
    proof {
        assert(out@ =~= old(out)@ + src@.subrange(from as int, to as int));
    }
}

/// Appends all of `src` to `out`.
pub fn append_bytes(out: &mut Vec<u8>, src: &Vec<u8>)
    ensures
        final(out)@ == old(out)@ + src@,
{
    copy_range(src, 0, src.len(), out);
    proof {
        assert(src@.subrange(0, src@.len() as int) =~= src@);
    }
}

/// Compares two byte vectors for equality of contents.
pub fn bytes_eq(a: &Vec<u8>, b: &Vec<u8>) -> (r: bool)
    ensures
        r == (a@ == b@),
{
    if a.len() != b.len() {
        return false;
    }
    let n = a.len();
    let mut i: usize = 0;
    while i < n
        invariant
            i <= n,
            n == a@.len() == b@.len(),
            forall|k: int| 0 <= k < i ==> a@[k] == b@[k],
        decreases n - i,
    {
        if a[i] != b[i] {
            return false;
        }
        i = i + 1;
    }
    proof {
        assert(a@ =~= b@);
    }
    true
}

/// Tests the 8-byte PNG signature.
pub fn check_signature(file: &Vec<u8>) -> (r: bool)
    ensures
        r == has_signature(file@),
{
    if file.len() < 8 {
        return false;
    }
    let r = file[0] == 0x89 && file[1] == 0x50 && file[2] == 0x4e && file[3] == 0x47 && file[4]
        == 0x0d && file[5] == 0x0a && file[6] == 0x1a && file[7] == 0x0a;
    proof {
        reveal(png_signature);
        if r {
            assert(file@.subrange(0, 8) =~= png_signature());
        } else {
            if file@.subrange(0, 8) == png_signature() {
                assert(file@[0] == file@.subrange(0, 8)[0]);
                assert(file@[1] == file@.subrange(0, 8)[1]);
                assert(file@[2] == file@.subrange(0, 8)[2]);
                assert(file@[3] == file@.subrange(0, 8)[3]);
                assert(file@[4] == file@.subrange(0, 8)[4]);
                assert(file@[5] == file@.subrange(0, 8)[5]);
                assert(file@[6] == file@.subrange(0, 8)[6]);
                assert(file@[7] == file@.subrange(0, 8)[7]);
            }
        }
    }
    r
}

} // verus!
