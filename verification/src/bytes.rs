//! Little-endian integers inside byte sequences.

use vstd::prelude::*;

verus! {

/// The two-byte integer at `off`.
pub open spec fn le16(s: Seq<u8>, off: int) -> u16 {
    (s[off] + 256 * s[off + 1]) as u16
}

/// The four-byte integer at `off`.
pub open spec fn le32(s: Seq<u8>, off: int) -> u32 {
    (s[off] + 256 * s[off + 1] + 65536 * s[off + 2] + 16777216 * s[off + 3]) as u32
}

/// The two bytes of an integer.
pub open spec fn bytes16(x: u16) -> Seq<u8> {
    seq![(x % 256) as u8, (x / 256) as u8]
}

/// The four bytes of an integer.
pub open spec fn bytes32(x: u32) -> Seq<u8> {
    seq![
        (x % 256) as u8,
        (x / 256 % 256) as u8,
        (x / 65536 % 256) as u8,
        (x / 16777216) as u8,
    ]
}

/// `p` with the bytes from `off` on replaced by `data`.
pub open spec fn splice(p: Seq<u8>, off: int, data: Seq<u8>) -> Seq<u8> {
    Seq::new(
        p.len(),
        |i: int|
            if off <= i < off + data.len() {
                data[i - off]
            } else {
                p[i]
            },
    )
}

/// Reading back an encoded two-byte integer gives the integer.
pub proof fn lemma_le16(s: Seq<u8>, off: int, x: u16)
    requires
        s[off] == bytes16(x)[0],
        s[off + 1] == bytes16(x)[1],
    ensures
        le16(s, off) == x,
{
}

/// Reading back an encoded four-byte integer gives the integer.
pub proof fn lemma_le32(s: Seq<u8>, off: int, x: u32)
    requires
        s[off] == bytes32(x)[0],
        s[off + 1] == bytes32(x)[1],
        s[off + 2] == bytes32(x)[2],
        s[off + 3] == bytes32(x)[3],
    ensures
        le32(s, off) == x,
{
}

/// Decodes the two-byte integer at `off`.
pub fn get16(b: &[u8], off: usize) -> (r: u16)
    requires
        off + 2 <= b@.len(),
    ensures
        r == le16(b@, off as int),
{
    b[off] as u16 + 256 * (b[off + 1] as u16)
}

/// Decodes the four-byte integer at `off`.
pub fn get32(b: &[u8], off: usize) -> (r: u32)
    requires
        off + 4 <= b@.len(),
    ensures
        r == le32(b@, off as int),
{
    b[off] as u32 + 256 * (b[off + 1] as u32) + 65536 * (b[off + 2] as u32) + 16777216 * (
    b[off + 3] as u32)
}

/// Appends the two bytes of an integer.
pub fn put16(v: &mut Vec<u8>, x: u16)
    ensures
        final(v)@ == old(v)@ + bytes16(x),
{
    v.push((x % 256) as u8);
    v.push((x / 256) as u8);
    assert(v@ =~= old(v)@ + bytes16(x));
}

/// Appends the four bytes of an integer.
pub fn put32(v: &mut Vec<u8>, x: u32)
    ensures
        final(v)@ == old(v)@ + bytes32(x),
{
    v.push((x % 256) as u8);
    v.push((x / 256 % 256) as u8);
    v.push((x / 65536 % 256) as u8);
    v.push((x / 16777216) as u8);
    assert(v@ =~= old(v)@ + bytes32(x));
}

} // verus!
