//! Fixed-width integers as bytes on the wire.

use vstd::prelude::*;

verus! {

/// Big-endian bytes of a 16-bit value.
pub open spec fn be16(n: u16) -> Seq<u8> {
    seq![(n / 256) as u8, (n % 256) as u8]
}

/// Big-endian bytes of a 32-bit value.
pub open spec fn be32(n: u32) -> Seq<u8> {
    seq![
        (n / 0x100_0000) as u8,
        (n / 0x1_0000 % 256) as u8,
        (n / 256 % 256) as u8,
        (n % 256) as u8,
    ]
}

/// Little-endian bytes of a 32-bit value.
pub open spec fn le32(n: u32) -> Seq<u8> {
    be32(n).reverse()
}

/// Big-endian bytes of a 64-bit value.
pub open spec fn be64(n: u64) -> Seq<u8> {
    be32((n / 0x1_0000_0000) as u32) + be32((n % 0x1_0000_0000) as u32)
}

/// The 16-bit value at `i`, most significant byte first.
pub open spec fn be16_at(b: Seq<u8>, i: int) -> u16 {
    (b[i] * 256 + b[i + 1]) as u16
}

/// The 32-bit value at `i`, most significant byte first.
pub open spec fn be32_at(b: Seq<u8>, i: int) -> u32 {
    (b[i] * 0x100_0000 + b[i + 1] * 0x1_0000 + b[i + 2] * 256 + b[i + 3]) as u32
}

/// The 64-bit value at `i`, most significant byte first.
pub open spec fn be64_at(b: Seq<u8>, i: int) -> u64 {
    (be32_at(b, i) * 0x1_0000_0000 + be32_at(b, i + 4)) as u64
}

/// The low sixteen bits of a number, as a field of that width carries it.
pub open spec fn low16(n: int) -> u16 {
    (n % 0x1_0000) as u16
}

/// The low thirty-two bits of a number, as a field of that width carries it.
pub open spec fn low32(n: int) -> u32 {
    (n % 0x1_0000_0000) as u32
}

/// Pieces of a stream, one after another.
pub open spec fn joined(chunks: Seq<Seq<u8>>) -> Seq<u8>
    decreases chunks.len(),
{
    if chunks.len() == 0 {
        seq![]
    } else {
        joined(chunks.drop_last()) + chunks.last()
    }
}

/// A length as a 32-bit field carries it.
pub fn low_word(n: usize) -> (w: u32)
    ensures
        w == low32(n as int),
{
    (n as u64 % 0x1_0000_0000) as u32
}

/// A length as a 16-bit field carries it.
pub fn low_half(n: usize) -> (w: u16)
    ensures
        w == low16(n as int),
{
    (n % 0x1_0000) as u16
}

pub fn push_be16(out: &mut Vec<u8>, n: u16)
    ensures
        final(out)@ == old(out)@ + be16(n),
{
    out.push((n / 256) as u8);
    out.push((n % 256) as u8);
    assert(out@ =~= old(out)@ + be16(n));
}

pub fn push_be32(out: &mut Vec<u8>, n: u32)
    ensures
        final(out)@ == old(out)@ + be32(n),
{
    out.push((n / 0x100_0000) as u8);
    out.push((n / 0x1_0000 % 256) as u8);
    out.push((n / 256 % 256) as u8);
    out.push((n % 256) as u8);
    assert(out@ =~= old(out)@ + be32(n));
}

pub fn push_be64(out: &mut Vec<u8>, n: u64)
    ensures
        final(out)@ == old(out)@ + be64(n),
{
    push_be32(out, (n / 0x1_0000_0000) as u32);
    push_be32(out, (n % 0x1_0000_0000) as u32);
    assert(out@ =~= old(out)@ + be64(n));
}

/// Append a copy of `src`.
pub fn push_all(out: &mut Vec<u8>, src: &[u8])
    ensures
        final(out)@ == old(out)@ + src@,
{
    out.extend_from_slice(src);
    assert(out@ =~= old(out)@ + src@);
}

pub fn read_be16(b: &[u8], i: usize) -> (n: u16)
    requires
        i + 2 <= b@.len(),
    ensures
        n == be16_at(b@, i as int),
{
    b[i] as u16 * 256 + b[i + 1] as u16
}

pub fn read_be32(b: &[u8], i: usize) -> (n: u32)
    requires
        i + 4 <= b@.len(),
    ensures
        n == be32_at(b@, i as int),
{
    b[i] as u32 * 0x100_0000 + b[i + 1] as u32 * 0x1_0000 + b[i + 2] as u32 * 256 + b[i + 3] as u32
}

pub fn read_be64(b: &[u8], i: usize) -> (n: u64)
    requires
        i + 8 <= b@.len(),
    ensures
        n == be64_at(b@, i as int),
{
    let n: usize = b.len();
    assert(i + 4 <= n);
    read_be32(b, i) as u64 * 0x1_0000_0000 + read_be32(b, i + 4) as u64
}

/// A copy of some bytes.
pub fn copy_bytes(b: &[u8]) -> (v: Vec<u8>)
    ensures
        v@ == b@,
{
    let mut v: Vec<u8> = Vec::new();
    push_all(&mut v, b);
    assert(v@ =~= b@);
    v
}

/// A copy of the bytes from `from` up to `to`.
pub fn copy_range(b: &[u8], from: usize, to: usize) -> (v: Vec<u8>)
    requires
        from <= to <= b@.len(),
    ensures
        v@ == b@.subrange(from as int, to as int),
{
    let mut v: Vec<u8> = Vec::new();
    push_all(&mut v, &b[from..to]);
    assert(v@ =~= b@.subrange(from as int, to as int));
    v
}

proof fn lemma_be32(n: u32)
    ensures
        be32_at(be32(n), 0) == n,
{
    let q = n / 256;
    let r = n / 0x1_0000;
    assert(n == q * 256 + n % 256);
    assert(q == r * 256 + q % 256 && r == n / 0x100_0000 * 256 + r % 256);
}

/// What was written big-endian reads back as the same number.
pub proof fn lemma_be_round_trip(a: u16, b: u32, c: u64)
    ensures
        be16_at(be16(a), 0) == a,
        be32_at(be32(b), 0) == b,
        be64_at(be64(c), 0) == c,
{
    lemma_be32(b);
    let hi = (c / 0x1_0000_0000) as u32;
    let lo = (c % 0x1_0000_0000) as u32;
    assert(be32_at(be64(c), 0) == hi) by {
        lemma_be32(hi);
        assert(forall|i: int| 0 <= i < 4 ==> be64(c)[i] == be32(hi)[i]);
    }
    assert(be32_at(be64(c), 4) == lo) by {
        lemma_be32(lo);
        assert(forall|i: int| 0 <= i < 4 ==> be64(c)[4 + i] == #[trigger] be32(lo)[i]);
    }
}

} // verus!
