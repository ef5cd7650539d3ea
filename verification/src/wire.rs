//! Big-endian and little-endian integer encodings used on the wire and in
//! snapshots, with their exact byte sequences and round-trip lemmas.

use vstd::prelude::*;

verus! {

/// The two big-endian bytes of `x`.
pub open spec fn be_u16(x: u16) -> Seq<u8> {
    seq![(x / 0x100) as u8, (x % 0x100) as u8]
}

/// The four big-endian bytes of `x`.
pub open spec fn be_u32(x: u32) -> Seq<u8> {
    seq![
        (x / 0x100_0000) as u8,
        ((x / 0x1_0000) % 0x100) as u8,
        ((x / 0x100) % 0x100) as u8,
        (x % 0x100) as u8,
    ]
}

/// The eight big-endian bytes of `x`.
pub open spec fn be_u64(x: u64) -> Seq<u8> {
    be_u32((x / 0x1_0000_0000) as u32) + be_u32((x % 0x1_0000_0000) as u32)
}

/// The four little-endian bytes of `x`.
pub open spec fn le_u32(x: u32) -> Seq<u8> {
    seq![
        (x % 0x100) as u8,
        ((x / 0x100) % 0x100) as u8,
        ((x / 0x1_0000) % 0x100) as u8,
        (x / 0x100_0000) as u8,
    ]
}

/// The value of two big-endian bytes starting at `b[0]`.
pub open spec fn u16_of_be(b: Seq<u8>) -> u16 {
    (b[0] as int * 0x100 + b[1] as int) as u16
}

/// The value of four big-endian bytes starting at `b[0]`.
pub open spec fn u32_of_be(b: Seq<u8>) -> u32 {
    (b[0] as int * 0x100_0000 + b[1] as int * 0x1_0000 + b[2] as int * 0x100 + b[3] as int) as u32
}

/// The value of eight big-endian bytes starting at `b[0]`.
pub open spec fn u64_of_be(b: Seq<u8>) -> u64 {
    (u32_of_be(b) as int * 0x1_0000_0000 + u32_of_be(b.subrange(4, 8)) as int) as u64
}

/// The value of four little-endian bytes starting at `b[0]`.
pub open spec fn u32_of_le(b: Seq<u8>) -> u32 {
    (b[3] as int * 0x100_0000 + b[2] as int * 0x1_0000 + b[1] as int * 0x100 + b[0] as int) as u32
}

pub proof fn lemma_be_u16_round_trip(x: u16)
    ensures
        u16_of_be(be_u16(x)) == x,
{
}

proof fn lemma_u32_recompose(x: u32)
    by (bit_vector)
    ensures
        x / 0x100_0000 < 0x100,
        (x / 0x100_0000) as int * 0x100_0000 + ((x / 0x1_0000) % 0x100) as int * 0x1_0000 + ((x
            / 0x100) % 0x100) as int * 0x100 + (x % 0x100) as int == x as int,
{
}

pub proof fn lemma_be_u32_round_trip(x: u32)
    ensures
        u32_of_be(be_u32(x)) == x,
        be_u32(x).len() == 4,
{
    lemma_u32_recompose(x);
}

pub proof fn lemma_be_u64_round_trip(x: u64)
    ensures
        u64_of_be(be_u64(x)) == x,
        be_u64(x).len() == 8,
{
    let hi = (x / 0x1_0000_0000) as u32;
    let lo = (x % 0x1_0000_0000) as u32;
    lemma_be_u32_round_trip(hi);
    lemma_be_u32_round_trip(lo);
    assert(be_u64(x).subrange(4, 8) =~= be_u32(lo));
    assert(be_u64(x).subrange(0, 4) =~= be_u32(hi));
    assert(u32_of_be(be_u64(x)) == u32_of_be(be_u32(hi)));
}

pub proof fn lemma_le_u32_round_trip(x: u32)
    ensures
        u32_of_le(le_u32(x)) == x,
        le_u32(x).len() == 4,
{
    lemma_u32_recompose(x);
}

proof fn lemma_u32_digits(a: u8, b: u8, c: u8, d: u8)
    by (bit_vector)
    ensures
        (a as int * 0x100_0000 + b as int * 0x1_0000 + c as int * 0x100 + d as int) / 0x100_0000
            == a as int,
        ((a as int * 0x100_0000 + b as int * 0x1_0000 + c as int * 0x100 + d as int) / 0x1_0000)
            % 0x100 == b as int,
        ((a as int * 0x100_0000 + b as int * 0x1_0000 + c as int * 0x100 + d as int) / 0x100)
            % 0x100 == c as int,
        (a as int * 0x100_0000 + b as int * 0x1_0000 + c as int * 0x100 + d as int) % 0x100
            == d as int,
        (a as int * 0x100_0000 + b as int * 0x1_0000 + c as int * 0x100 + d as int)
            <= 0xFFFF_FFFF,
{
}

/// Reading four bytes and writing them back gives the same bytes.
pub proof fn lemma_be_u32_of_bytes(b: Seq<u8>)
    requires
        b.len() == 4,
    ensures
        be_u32(u32_of_be(b)) =~= b,
{
    lemma_u32_digits(b[0], b[1], b[2], b[3]);
    let v = b[0] as int * 0x100_0000 + b[1] as int * 0x1_0000 + b[2] as int * 0x100 + b[3] as int;
    assert(v == u32_of_be(b));
}

/// Reading two bytes and writing them back gives the same bytes.
pub proof fn lemma_be_u16_of_bytes(b: Seq<u8>)
    requires
        b.len() == 2,
    ensures
        be_u16(u16_of_be(b)) =~= b,
{
}

/// Reading eight bytes and writing them back gives the same bytes.
pub proof fn lemma_be_u64_of_bytes(b: Seq<u8>)
    requires
        b.len() == 8,
    ensures
        be_u64(u64_of_be(b)) =~= b,
{
    let hi = u32_of_be(b);
    let lo = u32_of_be(b.subrange(4, 8));
    lemma_be_u32_of_bytes(b.subrange(0, 4));
    lemma_be_u32_of_bytes(b.subrange(4, 8));
    assert(u32_of_be(b.subrange(0, 4)) == hi);
    let v = u64_of_be(b);
    assert(v as int == hi as int * 0x1_0000_0000 + lo as int);
    assert((v / 0x1_0000_0000) as u32 == hi);
    assert((v % 0x1_0000_0000) as u32 == lo);
    assert(b =~= b.subrange(0, 4) + b.subrange(4, 8));
}

/// Appends the big-endian bytes of `x`.
pub fn push_be_u16(out: &mut Vec<u8>, x: u16)
    ensures
        final(out)@ == old(out)@ + be_u16(x),
{
    out.push((x / 0x100) as u8);
    out.push((x % 0x100) as u8);
}

/// Appends the big-endian bytes of `x`.
pub fn push_be_u32(out: &mut Vec<u8>, x: u32)
    ensures
        final(out)@ == old(out)@ + be_u32(x),
{
    out.push((x / 0x100_0000) as u8);
    out.push(((x / 0x1_0000) % 0x100) as u8);
    out.push(((x / 0x100) % 0x100) as u8);
    out.push((x % 0x100) as u8);
}

/// Appends the big-endian bytes of `x`.
pub fn push_be_u64(out: &mut Vec<u8>, x: u64)
    ensures
        final(out)@ == old(out)@ + be_u64(x),
{
    push_be_u32(out, (x / 0x1_0000_0000) as u32);
    push_be_u32(out, (x % 0x1_0000_0000) as u32);
    assert(final(out)@ =~= old(out)@ + be_u64(x));
}

/// Appends the little-endian bytes of `x`.
pub fn push_le_u32(out: &mut Vec<u8>, x: u32)
    ensures
        final(out)@ == old(out)@ + le_u32(x),
{
    out.push((x % 0x100) as u8);
    out.push(((x / 0x100) % 0x100) as u8);
    out.push(((x / 0x1_0000) % 0x100) as u8);
    out.push((x / 0x100_0000) as u8);
}

/// Appends every byte of `src`.
pub fn push_all(out: &mut Vec<u8>, src: &[u8])
    ensures
        final(out)@ == old(out)@ + src@,
{
    let ghost start = out@;
    let mut i: usize = 0;
    while i < src.len()
        invariant
            i <= src@.len(),
            out@ == start + src@.subrange(0, i as int),
        decreases src@.len() - i,
    {
        out.push(src[i]);
        i = i + 1;
        assert(src@.subrange(0, i as int) =~= src@.subrange(0, (i - 1) as int).push(src@[i - 1]));
        assert(out@ =~= start + src@.subrange(0, i as int));
    }
    assert(src@.subrange(0, src@.len() as int) =~= src@);
}

/// Reads two big-endian bytes at `pos`.
pub fn read_be_u16(b: &[u8], pos: usize) -> (r: u16)
    requires
        pos + 2 <= b@.len(),
    ensures
        r == u16_of_be(b@.subrange(pos as int, pos + 2)),
{
    // The slice length bounds every index below, so `pos + 2` cannot overflow.
    let n = b.len();
    assert(pos + 2 <= n);
    (b[pos] as u16) * 0x100 + (b[pos + 1] as u16)
}

/// Reads four big-endian bytes at `pos`.
pub fn read_be_u32(b: &[u8], pos: usize) -> (r: u32)
    requires
        pos + 4 <= b@.len(),
    ensures
        r == u32_of_be(b@.subrange(pos as int, pos + 4)),
{
    // The slice length bounds every index below, so `pos + 4` cannot overflow.
    let n = b.len();
    assert(pos + 4 <= n);
    (b[pos] as u32) * 0x100_0000 + (b[pos + 1] as u32) * 0x1_0000 + (b[pos + 2] as u32) * 0x100
        + (b[pos + 3] as u32)
}

/// Reads eight big-endian bytes at `pos`.
pub fn read_be_u64(b: &[u8], pos: usize) -> (r: u64)
    requires
        pos + 8 <= b@.len(),
    ensures
        r == u64_of_be(b@.subrange(pos as int, pos + 8)),
{
    // The slice length bounds every index below, so `pos + 8` cannot overflow.
    let n = b.len();
    assert(pos + 8 <= n);
    let hi = read_be_u32(b, pos);
    let lo = read_be_u32(b, pos + 4);
    assert(b@.subrange(pos as int, pos + 8).subrange(4, 8) =~= b@.subrange(pos + 4, pos + 8));
    assert(b@.subrange(pos as int, pos + 8).subrange(0, 4) =~= b@.subrange(pos as int, pos + 4));
    (hi as u64) * 0x1_0000_0000 + (lo as u64)
}

/// Reads four little-endian bytes at `pos`.
pub fn read_le_u32(b: &[u8], pos: usize) -> (r: u32)
    requires
        pos + 4 <= b@.len(),
    ensures
        r == u32_of_le(b@.subrange(pos as int, pos + 4)),
{
    // The slice length bounds every index below, so `pos + 4` cannot overflow.
    let n = b.len();
    assert(pos + 4 <= n);
    (b[pos + 3] as u32) * 0x100_0000 + (b[pos + 2] as u32) * 0x1_0000 + (b[pos + 1] as u32) * 0x100
        + (b[pos] as u32)
}

} // verus!
