use vstd::prelude::*;

verus! {

/// The value of the big-endian 16-bit integer made of `hi` and `lo`.
pub open spec fn be_u16(hi: u8, lo: u8) -> u16 {
    (hi as int * 256 + lo as int) as u16
}

/// The big-endian 16-bit integer at `p` in `buf`.
pub open spec fn read_be_u16(buf: Seq<u8>, p: int) -> u16 {
    be_u16(buf[p], buf[p + 1])
}

/// The big-endian 32-bit integer at `p` in `buf`.
pub open spec fn read_be_u32(buf: Seq<u8>, p: int) -> u32 {
    (buf[p] as int * 0x100_0000 + buf[p + 1] as int * 0x1_0000 + buf[p + 2] as int * 0x100
        + buf[p + 3] as int) as u32
}

/// The two bytes of `x`, most significant first.
pub open spec fn u16_bytes(x: u16) -> Seq<u8> {
    seq![(x / 256) as u8, (x % 256) as u8]
}

/// The four bytes of `x`, most significant first.
pub open spec fn u32_bytes(x: u32) -> Seq<u8> {
    seq![
        (x / 0x100_0000) as u8,
        ((x / 0x1_0000) % 256) as u8,
        ((x / 0x100) % 256) as u8,
        (x % 256) as u8,
    ]
}

pub proof fn lemma_u16_round_trip(x: u16)
    ensures
        be_u16(u16_bytes(x)[0], u16_bytes(x)[1]) == x,
{
}

pub proof fn lemma_u32_round_trip(x: u32)
    ensures
        read_be_u32(u32_bytes(x), 0) == x,
{
}

pub fn get_u16(buf: &[u8], p: usize) -> (r: u16)
    requires
        p + 2 <= buf@.len(),
    ensures
        r == read_be_u16(buf@, p as int),
{
    buf[p] as u16 * 256 + buf[p + 1] as u16
}

pub fn get_u32(buf: &[u8], p: usize) -> (r: u32)
    requires
        p + 4 <= buf@.len(),
    ensures
        r == read_be_u32(buf@, p as int),
{
    buf[p] as u32 * 0x100_0000 + buf[p + 1] as u32 * 0x1_0000 + buf[p + 2] as u32 * 0x100
        + buf[p + 3] as u32
}

pub fn put_u16(buf: &mut Vec<u8>, x: u16)
    ensures
        final(buf)@ == old(buf)@ + u16_bytes(x),
{
    buf.push((x / 256) as u8);
    buf.push((x % 256) as u8);
}

pub fn put_u32(buf: &mut Vec<u8>, x: u32)
    ensures
        final(buf)@ == old(buf)@ + u32_bytes(x),
{
    buf.push((x / 0x100_0000) as u8);
    buf.push(((x / 0x1_0000) % 256) as u8);
    buf.push(((x / 0x100) % 256) as u8);
    buf.push((x % 256) as u8);
}

} // verus!
