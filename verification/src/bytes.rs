//! Little-endian integers in byte sequences.

use vstd::prelude::*;

verus! {

/// The unsigned 16-bit little-endian integer at `off`.
pub open spec fn le_u16(s: Seq<u8>, off: int) -> int {
    s[off] as int + 0x100 * (s[off + 1] as int)
}

/// The unsigned 32-bit little-endian integer at `off`.
pub open spec fn le_u32(s: Seq<u8>, off: int) -> int {
    le_u16(s, off) + 0x1_0000 * le_u16(s, off + 2)
}

/// The unsigned 64-bit little-endian integer at `off`.
pub open spec fn le_u64(s: Seq<u8>, off: int) -> int {
    le_u32(s, off) + 0x1_0000_0000 * le_u32(s, off + 4)
}

/// The two's-complement 32-bit little-endian integer at `off`.
pub open spec fn le_i32(s: Seq<u8>, off: int) -> int {
    if le_u32(s, off) >= 0x8000_0000 {
        le_u32(s, off) - 0x1_0000_0000
    } else {
        le_u32(s, off)
    }
}

/// The two little-endian bytes of `v`, for `0 <= v < 2^16`.
pub open spec fn le_bytes_u16(v: int) -> Seq<u8> {
    seq![(v % 0x100) as u8, (v / 0x100) as u8]
}

/// The four little-endian bytes of `v`, for `0 <= v < 2^32`.
pub open spec fn le_bytes_u32(v: int) -> Seq<u8> {
    le_bytes_u16(v % 0x1_0000) + le_bytes_u16(v / 0x1_0000)
}

/// The eight little-endian bytes of `v`, for `0 <= v < 2^64`.
pub open spec fn le_bytes_u64(v: int) -> Seq<u8> {
    le_bytes_u32(v % 0x1_0000_0000) + le_bytes_u32(v / 0x1_0000_0000)
}

/// Reads the unsigned 16-bit integer at `off`.
pub fn read_u16(data: &[u8], off: usize) -> (r: u16)
    requires
        off + 2 <= data@.len(),
    ensures
        r as int == le_u16(data@, off as int),
{
    let lo: u16 = data[off] as u16;
    let hi: u16 = data[off + 1] as u16;
    lo + hi * 0x100
}

/// Reads the unsigned 32-bit integer at `off`.
pub fn read_u32(data: &[u8], off: usize) -> (r: u32)
    requires
        off + 4 <= data@.len(),
    ensures
        r as int == le_u32(data@, off as int),
{
    let _len: usize = data.len();
    let lo: u32 = read_u16(data, off) as u32;
    let hi: u32 = read_u16(data, off + 2) as u32;
    lo + hi * 0x1_0000
}

/// Reads the unsigned 64-bit integer at `off`.
pub fn read_u64(data: &[u8], off: usize) -> (r: u64)
    requires
        off + 8 <= data@.len(),
    ensures
        r as int == le_u64(data@, off as int),
{
    let _len: usize = data.len();
    let lo: u64 = read_u32(data, off) as u64;
    let hi: u64 = read_u32(data, off + 4) as u64;
    lo + hi * 0x1_0000_0000
}

/// Reads the signed 32-bit integer at `off`.
pub fn read_i32(data: &[u8], off: usize) -> (r: i32)
    requires
        off + 4 <= data@.len(),
    ensures
        r as int == le_i32(data@, off as int),
{
    let u: i64 = read_u32(data, off) as i64;
    if u >= 0x8000_0000 {
        (u - 0x1_0000_0000) as i32
    } else {
        u as i32
    }
}

/// Appends the two little-endian bytes of `v`.
pub fn put_u16(buf: &mut Vec<u8>, v: u16)
    ensures
        final(buf)@ == old(buf)@ + le_bytes_u16(v as int),
{
    buf.push((v % 0x100) as u8);
    buf.push((v / 0x100) as u8);
    assert(buf@ =~= old(buf)@ + le_bytes_u16(v as int));
}

/// Appends the four little-endian bytes of `v`.
pub fn put_u32(buf: &mut Vec<u8>, v: u32)
    ensures
        final(buf)@ == old(buf)@ + le_bytes_u32(v as int),
{
    let ghost before = buf@;
    put_u16(buf, (v % 0x1_0000) as u16);
    put_u16(buf, (v / 0x1_0000) as u16);
    assert(buf@ =~= before + le_bytes_u32(v as int));
}

/// Appends the eight little-endian bytes of `v`.
pub fn put_u64(buf: &mut Vec<u8>, v: u64)
    ensures
        final(buf)@ == old(buf)@ + le_bytes_u64(v as int),
{
    let ghost before = buf@;
    put_u32(buf, (v % 0x1_0000_0000) as u32);
    put_u32(buf, (v / 0x1_0000_0000) as u32);
    assert(buf@ =~= before + le_bytes_u64(v as int));
}

/// Reading back the bytes of a 16-bit value gives the value, wherever they
/// stand in a sequence.
pub proof fn lemma_le_u16_round_trip(s: Seq<u8>, off: int, v: int)
    requires
        0 <= v < 0x1_0000,
        0 <= off,
        off + 2 <= s.len(),
        s.subrange(off, off + 2) == le_bytes_u16(v),
    ensures
        le_u16(s, off) == v,
{
    let t = s.subrange(off, off + 2);
    assert(t[0] == s[off] && t[1] == s[off + 1]);
}

/// Reading back the bytes of a 32-bit value gives the value.
pub proof fn lemma_le_u32_round_trip(s: Seq<u8>, off: int, v: int)
    requires
        0 <= v < 0x1_0000_0000,
        0 <= off,
        off + 4 <= s.len(),
        s.subrange(off, off + 4) == le_bytes_u32(v),
    ensures
        le_u32(s, off) == v,
{
    let t = s.subrange(off, off + 4);
    assert(s.subrange(off, off + 2) =~= t.subrange(0, 2));
    assert(s.subrange(off + 2, off + 4) =~= t.subrange(2, 4));
    assert(t.subrange(0, 2) =~= le_bytes_u16(v % 0x1_0000));
    assert(t.subrange(2, 4) =~= le_bytes_u16(v / 0x1_0000));
    lemma_le_u16_round_trip(s, off, v % 0x1_0000);
    lemma_le_u16_round_trip(s, off + 2, v / 0x1_0000);
}

/// Reading back the bytes of a 64-bit value gives the value.
pub proof fn lemma_le_u64_round_trip(s: Seq<u8>, off: int, v: int)
    requires
        0 <= v < 0x1_0000_0000_0000_0000,
        0 <= off,
        off + 8 <= s.len(),
        s.subrange(off, off + 8) == le_bytes_u64(v),
    ensures
        le_u64(s, off) == v,
{
    let t = s.subrange(off, off + 8);
    assert(s.subrange(off, off + 4) =~= t.subrange(0, 4));
    assert(s.subrange(off + 4, off + 8) =~= t.subrange(4, 8));
    assert(t.subrange(0, 4) =~= le_bytes_u32(v % 0x1_0000_0000));
    assert(t.subrange(4, 8) =~= le_bytes_u32(v / 0x1_0000_0000));
    lemma_le_u32_round_trip(s, off, v % 0x1_0000_0000);
    lemma_le_u32_round_trip(s, off + 4, v / 0x1_0000_0000);
}

} // verus!
