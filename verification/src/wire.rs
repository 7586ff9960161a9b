use vstd::prelude::*;

verus! {

/// The two bytes of `x`, least significant first.
pub open spec fn le16(x: u16) -> Seq<u8> {
    seq![(x % 256) as u8, (x / 256) as u8]
}

/// The four bytes of `x`, least significant first.
pub open spec fn le32(x: u32) -> Seq<u8> {
    seq![
        (x % 256) as u8,
        (x / 256 % 256) as u8,
        (x / 65536 % 256) as u8,
        (x / 16777216) as u8,
    ]
}

/// The number whose little-endian bytes are `b[0]` and `b[1]`.
pub open spec fn from_le16(b: Seq<u8>) -> u16
    recommends
        b.len() == 2,
{
    (b[0] as int + 256 * (b[1] as int)) as u16
}

/// The number whose little-endian bytes are `b[0]` to `b[3]`.
pub open spec fn from_le32(b: Seq<u8>) -> u32
    recommends
        b.len() == 4,
{
    (b[0] as int + 256 * (b[1] as int) + 65536 * (b[2] as int) + 16777216 * (b[3] as int)) as u32
}

/// Reading back what `le16` wrote gives the number again.
pub proof fn lemma_le16_round_trip(x: u16)
    ensures
        le16(x).len() == 2,
        from_le16(le16(x)) == x,
{
}

/// Reading back what `le32` wrote gives the number again.
pub proof fn lemma_le32_round_trip(x: u32)
    ensures
        le32(x).len() == 4,
        from_le32(le32(x)) == x,
{
}

/// The eight bytes of `x`, least significant first.
pub open spec fn le64(x: u64) -> Seq<u8> {
    le32((x % 0x1_0000_0000) as u32) + le32((x / 0x1_0000_0000) as u32)
}

/// The number whose little-endian bytes are `b[0]` to `b[7]`.
pub open spec fn from_le64(b: Seq<u8>) -> u64
    recommends
        b.len() == 8,
{
    (from_le32(b.subrange(0, 4)) as int + 0x1_0000_0000 * (from_le32(b.subrange(4, 8)) as int)) as u64
}

/// Reading back what `le64` wrote gives the number again.
pub proof fn lemma_le64_round_trip(x: u64)
    ensures
        le64(x).len() == 8,
        from_le64(le64(x)) == x,
{
    let lo = (x % 0x1_0000_0000) as u32;
    let hi = (x / 0x1_0000_0000) as u32;
    lemma_le32_round_trip(lo);
    lemma_le32_round_trip(hi);
    assert(le64(x).subrange(0, 4) =~= le32(lo));
    assert(le64(x).subrange(4, 8) =~= le32(hi));
}

/// Appends `x` in little-endian order.
pub fn put_u64(out: &mut Vec<u8>, x: u64)
    ensures
        final(out)@ == old(out)@ + le64(x),
{
    put_u32(out, (x % 0x1_0000_0000) as u32);
    put_u32(out, (x / 0x1_0000_0000) as u32);
    assert(out@ =~= old(out)@ + le64(x));
}

/// Appends `x` in little-endian order.
pub fn put_u16(out: &mut Vec<u8>, x: u16)
    ensures
        final(out)@ == old(out)@ + le16(x),
{
    out.push((x % 256) as u8);
    out.push((x / 256) as u8);
    assert(out@ =~= old(out)@ + le16(x));
}

/// Appends `x` in little-endian order.
pub fn put_u32(out: &mut Vec<u8>, x: u32)
    ensures
        final(out)@ == old(out)@ + le32(x),
{
    out.push((x % 256) as u8);
    out.push((x / 256 % 256) as u8);
    out.push((x / 65536 % 256) as u8);
    out.push((x / 16777216) as u8);
    assert(out@ =~= old(out)@ + le32(x));
}

/// Reads the little-endian `u16` at `pos`.
pub fn get_u16(buf: &[u8], pos: usize) -> (x: u16)
    requires
        pos + 2 <= buf.len(),
    ensures
        x == from_le16(buf@.subrange(pos as int, pos + 2)),
{
    let lo: u16 = buf[pos] as u16;
    let hi: u16 = buf[pos + 1] as u16;
    lo + 256 * hi
}

/// Reads the little-endian `u32` at `pos`.
pub fn get_u32(buf: &[u8], pos: usize) -> (x: u32)
    requires
        pos + 4 <= buf.len(),
    ensures
        x == from_le32(buf@.subrange(pos as int, pos + 4)),
{
    let b0: u32 = buf[pos] as u32;
    let b1: u32 = buf[pos + 1] as u32;
    let b2: u32 = buf[pos + 2] as u32;
    let b3: u32 = buf[pos + 3] as u32;
    b0 + 256 * b1 + 65536 * b2 + 16777216 * b3
}

/// Appends the bytes `src[start..end]`.
pub fn put_bytes(out: &mut Vec<u8>, src: &[u8], start: usize, end: usize)
    requires
        start <= end <= src.len(),
    ensures
        final(out)@ == old(out)@ + src@.subrange(start as int, end as int),
{
    let mut i: usize = start;
    while i < end
        invariant
            start <= i <= end <= src.len(),
            out@ == old(out)@ + src@.subrange(start as int, i as int),
        decreases end - i,
    {
        out.push(src[i]);
        i = i + 1;
        assert(out@ =~= old(out)@ + src@.subrange(start as int, i as int));
    }
}

/// A fresh vector holding the bytes `src[start..end]`.
pub fn take_bytes(src: &[u8], start: usize, end: usize) -> (out: Vec<u8>)
    requires
        start <= end <= src.len(),
    ensures
        out@ == src@.subrange(start as int, end as int),
{
    let mut out: Vec<u8> = Vec::with_capacity(end - start);
    put_bytes(&mut out, src, start, end);
    assert(out@ =~= src@.subrange(start as int, end as int));
    out
}

} // verus!
