//! Big-endian integers in byte sequences.
use vstd::prelude::*;

verus! {

/// The 16-bit big-endian integer at `off`.
pub open spec fn be16(s: Seq<u8>, off: int) -> u16 {
    (s[off] * 256 + s[off + 1]) as u16
}

/// The 32-bit big-endian integer at `off`.
#[verifier::opaque]
pub open spec fn be32(s: Seq<u8>, off: int) -> u32 {
    (s[off] * 0x100_0000 + s[off + 1] * 0x1_0000 + s[off + 2] * 0x100 + s[off + 3]) as u32
}

/// The big-endian encoding of a 16-bit integer.
pub open spec fn bytes16(v: u16) -> Seq<u8> {
    seq![(v / 256) as u8, (v % 256) as u8]
}

/// The big-endian encoding of a 32-bit integer.
#[verifier::opaque]
pub open spec fn bytes32(v: u32) -> Seq<u8> {
    seq![
        (v / 0x100_0000) as u8,
        (v / 0x1_0000 % 256) as u8,
        (v / 0x100 % 256) as u8,
        (v % 256) as u8,
    ]
}

/// `s` with the bytes of `b` written over it from `off` on.
pub open spec fn overwrite(s: Seq<u8>, off: int, b: Seq<u8>) -> Seq<u8> {
    Seq::new(s.len(), |i: int| if off <= i < off + b.len() { b[i - off] } else { s[i] })
}

/// Decoding an encoded 16-bit integer gives it back.
pub proof fn lemma_be16_of_bytes16(v: u16)
    ensures
        be16(bytes16(v), 0) == v,
{
}

/// An encoded 32-bit integer takes four bytes.
pub broadcast proof fn lemma_bytes32_len(v: u32)
    ensures
        #[trigger] bytes32(v).len() == 4,
{
    reveal(bytes32);
}

/// Decoding a 32-bit integer from where it is encoded gives it back.
pub proof fn lemma_be32_of_bytes32(s: Seq<u8>, off: int, v: u32)
    requires
        0 <= off,
        off + 4 <= s.len(),
        s.subrange(off, off + 4) == bytes32(v),
    ensures
        be32(s, off) == v,
{
    reveal(be32);
    reveal(bytes32);
    let t = s.subrange(off, off + 4);
    assert(t[0] == s[off] && t[1] == s[off + 1] && t[2] == s[off + 2] && t[3] == s[off + 3]);
    let a: u32 = v / 0x100;
    let b: u32 = v / 0x1_0000;
    let c: u32 = v / 0x100_0000;
    assert(v == a * 256 + v % 256);
    assert(b == a / 256);
    assert(a == b * 256 + a % 256);
    assert(c == b / 256);
    assert(b == c * 256 + b % 256);
    assert(c < 256);
}

/// Reads the 16-bit integer at `off`.
pub fn read_u16(pk: &[u8], off: usize) -> (r: u16)
    requires
        off + 2 <= pk@.len(),
    ensures
        r == be16(pk@, off as int),
{
    pk[off] as u16 * 256 + pk[off + 1] as u16
}

/// Reads the 32-bit integer at `off`.
pub fn read_u32(pk: &[u8], off: usize) -> (r: u32)
    requires
        off + 4 <= pk@.len(),
    ensures
        r == be32(pk@, off as int),
{
    reveal(be32);
    pk[off] as u32 * 0x100_0000 + pk[off + 1] as u32 * 0x1_0000 + pk[off + 2] as u32 * 0x100
        + pk[off + 3] as u32
}

/// Writes a 16-bit integer at `off`.
pub fn write_u16(pk: &mut [u8], off: usize, v: u16)
    requires
        off + 2 <= old(pk)@.len(),
    ensures
        final(pk)@ == overwrite(old(pk)@, off as int, bytes16(v)),
{
    pk[off] = (v / 256) as u8;
    pk[off + 1] = (v % 256) as u8;
}

/// Writes a 32-bit integer at `off`.
pub fn write_u32(pk: &mut [u8], off: usize, v: u32)
    requires
        off + 4 <= old(pk)@.len(),
    ensures
        final(pk)@ == overwrite(old(pk)@, off as int, bytes32(v)),
{
    reveal(bytes32);
    pk[off] = (v / 0x100_0000) as u8;
    pk[off + 1] = (v / 0x1_0000 % 256) as u8;
    pk[off + 2] = (v / 0x100 % 256) as u8;
    pk[off + 3] = (v % 256) as u8;
}

/// Appends a 16-bit integer.
pub fn push_u16(out: &mut Vec<u8>, v: u16)
    ensures
        final(out)@ == old(out)@ + bytes16(v),
{
    out.push((v / 256) as u8);
    out.push((v % 256) as u8);
}

/// Appends a 32-bit integer.
pub fn push_u32(out: &mut Vec<u8>, v: u32)
    ensures
        final(out)@ == old(out)@ + bytes32(v),
{
    reveal(bytes32);
    out.push((v / 0x100_0000) as u8);
    out.push((v / 0x1_0000 % 256) as u8);
    out.push((v / 0x100 % 256) as u8);
    out.push((v % 256) as u8);
}

} // verus!
