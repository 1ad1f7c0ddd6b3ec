//! Fixed-width big- and little-endian fields inside byte buffers.

use vstd::prelude::*;

verus! {

/// The big-endian 16-bit value at `i`.
pub open spec fn be16(b: Seq<u8>, i: int) -> int {
    b[i] as int * 256 + b[i + 1] as int
}

/// The little-endian 16-bit value at `i`.
pub open spec fn le16(b: Seq<u8>, i: int) -> int {
    b[i + 1] as int * 256 + b[i] as int
}

/// The big-endian 32-bit value at `i`.
pub open spec fn be32(b: Seq<u8>, i: int) -> int {
    be16(b, i) * 65536 + be16(b, i + 2)
}

/// The little-endian 32-bit value at `i`.
pub open spec fn le32(b: Seq<u8>, i: int) -> int {
    le16(b, i + 2) * 65536 + le16(b, i)
}

/// `b` with the big-endian 16-bit value `v` written at `i`.
pub open spec fn put_be16(b: Seq<u8>, i: int, v: int) -> Seq<u8> {
    b.update(i, (v / 256) as u8).update(i + 1, (v % 256) as u8)
}

/// `b` with the little-endian 16-bit value `v` written at `i`.
pub open spec fn put_le16(b: Seq<u8>, i: int, v: int) -> Seq<u8> {
    b.update(i, (v % 256) as u8).update(i + 1, (v / 256) as u8)
}

/// `b` with the little-endian 32-bit value `v` written at `i`.
pub open spec fn put_le32(b: Seq<u8>, i: int, v: int) -> Seq<u8> {
    put_le16(put_le16(b, i, v % 65536), i + 2, v / 65536)
}

/// `b` with the bytes of `part` written from `at` on.
pub open spec fn overwrite(b: Seq<u8>, at: int, part: Seq<u8>) -> Seq<u8> {
    Seq::new(
        b.len(),
        |i: int|
            if at <= i < at + part.len() {
                part[i - at]
            } else {
                b[i]
            },
    )
}

/// The big-endian 16-bit value at `i` of a buffer.
pub fn read_be16(buf: &[u8], i: usize) -> (r: u16)
    requires
        i + 2 <= buf.len(),
    ensures
        r == be16(buf@, i as int),
{
    buf[i] as u16 * 256 + buf[i + 1] as u16
}

/// The little-endian 16-bit value at `i` of a buffer.
pub fn read_le16(buf: &[u8], i: usize) -> (r: u16)
    requires
        i + 2 <= buf.len(),
    ensures
        r == le16(buf@, i as int),
{
    buf[i + 1] as u16 * 256 + buf[i] as u16
}

/// The big-endian 32-bit value at `i` of a buffer.
pub fn read_be32(buf: &[u8], i: usize) -> (r: u32)
    requires
        i + 4 <= buf.len(),
    ensures
        r == be32(buf@, i as int),
{
    read_be16(buf, i) as u32 * 65536 + read_be16(buf, i + 2) as u32
}

/// The little-endian 32-bit value at `i` of a buffer.
pub fn read_le32(buf: &[u8], i: usize) -> (r: u32)
    requires
        i + 4 <= buf.len(),
    ensures
        r == le32(buf@, i as int),
{
    read_le16(buf, i + 2) as u32 * 65536 + read_le16(buf, i) as u32
}

/// Write a big-endian 16-bit value at `i`.
pub fn write_be16(buf: &mut [u8], i: usize, v: u16)
    requires
        i + 2 <= old(buf).len(),
    ensures
        final(buf)@ == put_be16(old(buf)@, i as int, v as int),
{
    buf[i] = (v / 256) as u8;
    buf[i + 1] = (v % 256) as u8;
}

/// Write a little-endian 16-bit value at `i`.
pub fn write_le16(buf: &mut [u8], i: usize, v: u16)
    requires
        i + 2 <= old(buf).len(),
    ensures
        final(buf)@ == put_le16(old(buf)@, i as int, v as int),
{
    buf[i] = (v % 256) as u8;
    buf[i + 1] = (v / 256) as u8;
}

/// Write a little-endian 32-bit value at `i`.
pub fn write_le32(buf: &mut [u8], i: usize, v: u32)
    requires
        i + 4 <= old(buf).len(),
    ensures
        final(buf)@ == put_le32(old(buf)@, i as int, v as int),
{
    write_le16(buf, i, (v % 65536) as u16);
    write_le16(buf, i + 2, (v / 65536) as u16);
}

/// Append a big-endian 16-bit value.
pub fn push_be16(buf: &mut Vec<u8>, v: u16)
    ensures
        final(buf)@ == old(buf)@ + seq![(v / 256) as u8, (v % 256) as u8],
{
    buf.push((v / 256) as u8);
    buf.push((v % 256) as u8);
    proof {
        assert(buf@ =~= old(buf)@ + seq![(v / 256) as u8, (v % 256) as u8]);
    }
}

/// Append a run of bytes.
pub fn push_bytes(buf: &mut Vec<u8>, part: &[u8])
    ensures
        final(buf)@ == old(buf)@ + part@,
{
    let mut i: usize = 0;
    while i < part.len()
        invariant
            i <= part@.len(),
            buf@ == old(buf)@ + part@.take(i as int),
        decreases part@.len() - i,
    {
        buf.push(part[i]);
        proof {
            assert(part@.take(i as int + 1) =~= part@.take(i as int).push(part@[i as int]));
        }
        i += 1;
    }
    proof {
        assert(part@.take(i as int) =~= part@);
    }
}

/// Overwrite the bytes from `at` on with `part`.
pub fn write_bytes(buf: &mut [u8], at: usize, part: &[u8])
    requires
        at + part@.len() <= old(buf).len(),
    ensures
        final(buf)@ == overwrite(old(buf)@, at as int, part@),
{
    let mut i: usize = 0;
    while i < part.len()
        invariant
            i <= part@.len(),
            at + part@.len() <= old(buf).len(),
            buf@ == overwrite(old(buf)@, at as int, part@.take(i as int)),
        decreases part@.len() - i,
    {
        buf[at + i] = part[i];
        i += 1;
    }
    proof {
        assert(part@.take(i as int) =~= part@);
    }
}

} // verus!
