//! Byte-buffer primitives: little-endian fields, block copies, and what they do to a buffer.

use vstd::prelude::*;

verus! {

/// The little-endian 16-bit number stored at `pos`.
pub open spec fn rd16(b: Seq<u8>, pos: int) -> int {
    b[pos] as int + 256 * (b[pos + 1] as int)
}

/// The two bytes that store `v`, low byte first.
pub open spec fn le16(v: int) -> Seq<u8> {
    seq![(v % 256) as u8, (v / 256) as u8]
}

/// `b` with the bytes from `pos` on replaced by `s`.
pub open spec fn overlay(b: Seq<u8>, pos: int, s: Seq<u8>) -> Seq<u8> {
    Seq::new(
        b.len(),
        |i: int|
            if pos <= i < pos + s.len() {
                s[i - pos]
            } else {
                b[i]
            },
    )
}

/// Reads the 16-bit field at `pos`.
pub fn read_u16(buf: &Vec<u8>, pos: usize) -> (r: u16)
    requires
        pos + 2 <= buf.len(),
    ensures
        r as int == rd16(buf@, pos as int),
{
    buf[pos] as u16 + 256 * (buf[pos + 1] as u16)
}

/// Writes the 16-bit field at `pos`.
pub fn write_u16(buf: &mut Vec<u8>, pos: usize, v: u16)
    requires
        pos + 2 <= old(buf).len(),
    ensures
        final(buf)@ == overlay(old(buf)@, pos as int, le16(v as int)),
        rd16(final(buf)@, pos as int) == v as int,
{
    let lo: u8 = (v % 256) as u8;
    let hi: u8 = (v / 256) as u8;
    buf.set(pos, lo);
    buf.set(pos + 1, hi);
    assert(buf@ =~= overlay(old(buf)@, pos as int, le16(v as int)));
}

/// Copies `src` over the bytes of `buf` that start at `pos`.
pub fn write_bytes(buf: &mut Vec<u8>, pos: usize, src: &[u8])
    requires
        pos + src@.len() <= old(buf)@.len(),
    ensures
        final(buf)@ == overlay(old(buf)@, pos as int, src@),
{
    let n: usize = src.len();
    let mut i: usize = 0;
    while i < n
        invariant
            n == src@.len(),
            i <= n,
            pos + n <= buf.len(),
            buf@.len() == old(buf)@.len(),
            buf@ == overlay(old(buf)@, pos as int, src@.take(i as int)),
        decreases n - i,
    {
        buf.set(pos + i, src[i]);
        i = i + 1;
        assert(buf@ =~= overlay(old(buf)@, pos as int, src@.take(i as int)));
    }
    assert(src@.take(n as int) =~= src@);
}

/// Copies `len` bytes inside `buf` from `src` to `dst`; the two ranges may overlap.
pub fn copy_within(buf: &mut Vec<u8>, src: usize, dst: usize, len: usize)
    requires
        src + len <= old(buf)@.len(),
        dst + len <= old(buf)@.len(),
    ensures
        final(buf)@ == overlay(
            old(buf)@,
            dst as int,
            old(buf)@.subrange(src as int, src + len),
        ),
{
    let block = read_bytes(buf, src, len);
    write_bytes(buf, dst, block.as_slice());
}

/// A copy of the `len` bytes of `buf` that start at `pos`.
pub fn read_bytes(buf: &Vec<u8>, pos: usize, len: usize) -> (r: Vec<u8>)
    requires
        pos + len <= buf.len(),
    ensures
        r@ == buf@.subrange(pos as int, pos + len),
{
    let mut out: Vec<u8> = Vec::with_capacity(len);
    let mut i: usize = 0;
    while i < len
        invariant
            i <= len,
            pos + len <= buf.len(),
            out@ == buf@.subrange(pos as int, pos + i),
        decreases len - i,
    {
        out.push(buf[pos + i]);
        i = i + 1;
        assert(out@ =~= buf@.subrange(pos as int, pos + i));
    }
    out
}

/// A copy of a byte vector.
pub fn copy_vec(v: &Vec<u8>) -> (r: Vec<u8>)
    ensures
        r@ == v@,
{
    let r = read_bytes(v, 0, v.len());
    assert(r@ =~= v@);
    r
}

/// A vector with the bytes of a slice.
pub fn slice_to_bytes(s: &[u8]) -> (r: Vec<u8>)
    ensures
        r@ == s@,
{
    vstd::slice::slice_to_vec(s)
}

/// A buffer of `n` zero bytes.
pub fn zeroed(n: usize) -> (r: Vec<u8>)
    ensures
        r@ == Seq::new(n as nat, |i: int| 0u8),
{
    let mut out: Vec<u8> = Vec::with_capacity(n);
    let mut i: usize = 0;
    while i < n
        invariant
            i <= n,
            out@ == Seq::new(i as nat, |i: int| 0u8),
        decreases n - i,
    {
        out.push(0);
        i = i + 1;
        assert(out@ =~= Seq::new(i as nat, |i: int| 0u8));
    }
    out
}

} // verus!
