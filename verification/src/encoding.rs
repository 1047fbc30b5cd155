//! Little-endian integer reads and writes over byte vectors, with the spec
//! functions that the node codec and the meta record are stated over.

use vstd::prelude::*;

verus! {

/// The integer held by two little-endian bytes.
pub open spec fn le16(b: Seq<u8>) -> int {
    b[0] + 256 * b[1]
}

/// The integer held by four little-endian bytes.
pub open spec fn le32(b: Seq<u8>) -> int {
    b[0] + 256 * b[1] + 65536 * b[2] + 16777216 * b[3]
}

/// The two little-endian bytes of a 16-bit integer.
pub open spec fn u16_le(v: u16) -> Seq<u8> {
    seq![(v % 256) as u8, (v / 256) as u8]
}

/// The four little-endian bytes of a 32-bit integer.
pub open spec fn u32_le(v: u32) -> Seq<u8> {
    seq![
        (v % 256) as u8,
        ((v / 256) % 256) as u8,
        ((v / 65536) % 256) as u8,
        ((v / 16777216) % 256) as u8,
    ]
}

/// Reading back the two bytes of `v` yields `v`.
pub proof fn lemma_u16_le_inverse(v: u16)
    ensures
        le16(u16_le(v)) == v,
{
}

/// Reading back the four bytes of `v` yields `v`.
pub proof fn lemma_u32_le_inverse(v: u32)
    ensures
        le32(u32_le(v)) == v,
{
}

/// Append the two little-endian bytes of `v`.
pub fn write_u16_le(out: &mut Vec<u8>, v: u16)
    ensures
        final(out)@ == old(out)@ + u16_le(v),
{
    out.push((v % 256) as u8);
    out.push((v / 256) as u8);
    proof {
        assert(out@ =~= old(out)@ + u16_le(v));
    }
}

/// Append the four little-endian bytes of `v`.
pub fn write_u32_le(out: &mut Vec<u8>, v: u32)
    ensures
        final(out)@ == old(out)@ + u32_le(v),
{
    out.push((v % 256) as u8);
    out.push(((v / 256) % 256) as u8);
    out.push(((v / 65536) % 256) as u8);
    out.push(((v / 16777216) % 256) as u8);
    proof {
        assert(out@ =~= old(out)@ + u32_le(v));
    }
}

/// Read a 16-bit little-endian integer at offset `off`.
pub fn read_u16_le(b: &[u8], off: usize) -> (r: u16)
    requires
        off + 2 <= b@.len(),
    ensures
        r as int == le16(b@.subrange(off as int, off + 2)),
{
    let lo: u16 = b[off] as u16;
    let hi: u16 = b[off + 1] as u16;
    proof {
        let s = b@.subrange(off as int, off + 2);
        assert(s[0] == b@[off as int]);
        assert(s[1] == b@[off + 1]);
    }
    lo + 256 * hi
}

/// Read a 32-bit little-endian integer at offset `off`.
pub fn read_u32_le(b: &[u8], off: usize) -> (r: u32)
    requires
        off + 4 <= b@.len(),
    ensures
        r as int == le32(b@.subrange(off as int, off + 4)),
{
    let b0: u32 = b[off] as u32;
    let b1: u32 = b[off + 1] as u32;
    let b2: u32 = b[off + 2] as u32;
    let b3: u32 = b[off + 3] as u32;
    proof {
        let s = b@.subrange(off as int, off + 4);
        assert(s[0] == b@[off as int]);
        assert(s[1] == b@[off + 1]);
        assert(s[2] == b@[off + 2]);
        assert(s[3] == b@[off + 3]);
    }
    b0 + 256 * b1 + 65536 * b2 + 16777216 * b3
}

/// A copy of the byte range `[off, off + len)` of `b`.
pub fn copy_range(b: &[u8], off: usize, len: usize) -> (r: Vec<u8>)
    requires
        off + len <= b@.len(),
    ensures
        r@ == b@.subrange(off as int, off + len),
{
    let n: usize = b.len();
    let mut out: Vec<u8> = Vec::new();
    let mut i: usize = 0;
    while i < len
        invariant
            i <= len,
            n == b@.len(),
            off + len <= n,
            out@ == b@.subrange(off as int, off + i),
        decreases len - i,
    {
        out.push(b[off + i]);
        proof {
            assert(out@ =~= b@.subrange(off as int, off + i + 1));
        }
        i = i + 1;
    }
    out
}

} // verus!
