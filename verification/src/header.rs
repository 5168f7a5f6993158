//! The fixed header of a LAS file, versions 1.0 to 1.4.

use vstd::prelude::*;
use crate::bytes::le_bytes_u16;
use crate::bytes::le_bytes_u32;
use crate::bytes::le_bytes_u64;
use crate::bytes::le_u16;
use crate::bytes::lemma_le_u16_round_trip;
use crate::bytes::lemma_le_u32_round_trip;
use crate::bytes::lemma_le_u64_round_trip;
use crate::bytes::le_u32;
use crate::bytes::le_u64;
use crate::bytes::read_u16;
use crate::bytes::read_u32;
use crate::bytes::read_u64;

verus! {

/// Bytes of the fixed header that every supported version has.
pub const HEADER_MIN_LEN: usize = 227;

/// Bytes a file needs for the 64-bit point count of version 1.4 to be read.
pub const HEADER_LEN_WITH_COUNT64: usize = 255;

/// Which check of the header failed.
#[derive(Debug, Clone, Copy, PartialEq, Eq, Structural)]
pub enum HeaderFault {
    /// Fewer than 227 bytes.
    TooShort,
    /// The first four bytes are not `LASF`.
    BadSignature,
    /// The major version is not 1, or the minor version is above 4.
    UnsupportedVersion { major: u8, minor: u8 },
}

/// Parsed file metadata. The doubles of the header (scale, offset, bounds)
/// are kept as their IEEE-754 bit patterns.
#[derive(Debug, Clone, Copy)]
pub struct LasHeader {
    pub version_major: u8,
    pub version_minor: u8,
    pub point_data_format: u8,
    pub point_data_record_length: u16,
    pub number_of_points: u64,
    pub offset_to_points: u32,
    pub num_vlrs: u32,
    pub scale: [u64; 3],
    pub offset: [u64; 3],
    pub min: [u64; 3],
    pub max: [u64; 3],
    pub has_color: bool,
    pub has_gps_time: bool,
}

/// Point formats that carry RGB.
pub open spec fn format_has_color(format: u8) -> bool {
    format == 2 || format == 3 || format == 5 || format == 7 || format == 8 || format == 10
}

/// Point formats that carry a GPS time.
pub open spec fn format_has_gps_time(format: u8) -> bool {
    format == 1 || (3 <= format <= 10)
}

/// Whether the first four bytes spell `LASF`.
pub open spec fn has_signature(s: Seq<u8>) -> bool {
    s.len() >= 4 && s[0] == 0x4c && s[1] == 0x41 && s[2] == 0x53 && s[3] == 0x46
}

/// The first check that fails on `s`, in the order length, signature,
/// version; `None` where all pass.
pub open spec fn header_fault(s: Seq<u8>) -> Option<HeaderFault> {
    if s.len() < HEADER_MIN_LEN {
        Some(HeaderFault::TooShort)
    } else if !has_signature(s) {
        Some(HeaderFault::BadSignature)
    } else if s[24] != 1 || s[25] > 4 {
        Some(HeaderFault::UnsupportedVersion { major: s[24], minor: s[25] })
    } else {
        None
    }
}

/// The point count: the 64-bit field at 247 for version 1.4 in a file of at
/// least 255 bytes, else the 32-bit field at 107.
pub open spec fn header_point_count(s: Seq<u8>) -> int {
    if s[25] >= 4 && s.len() >= HEADER_LEN_WITH_COUNT64 {
        le_u64(s, 247)
    } else {
        le_u32(s, 107)
    }
}

/// `h` holds what the header bytes `s` say, field by field.
pub open spec fn header_describes(h: LasHeader, s: Seq<u8>) -> bool {
    &&& h.version_major == s[24]
    &&& h.version_minor == s[25]
    &&& h.offset_to_points as int == le_u32(s, 96)
    &&& h.num_vlrs as int == le_u32(s, 100)
    &&& h.point_data_format == s[104]
    &&& h.point_data_record_length as int == le_u16(s, 105)
    &&& h.number_of_points as int == header_point_count(s)
    &&& h.scale[0] as int == le_u64(s, 131)
    &&& h.scale[1] as int == le_u64(s, 139)
    &&& h.scale[2] as int == le_u64(s, 147)
    &&& h.offset[0] as int == le_u64(s, 155)
    &&& h.offset[1] as int == le_u64(s, 163)
    &&& h.offset[2] as int == le_u64(s, 171)
    &&& h.max[0] as int == le_u64(s, 179)
    &&& h.min[0] as int == le_u64(s, 187)
    &&& h.max[1] as int == le_u64(s, 195)
    &&& h.min[1] as int == le_u64(s, 203)
    &&& h.max[2] as int == le_u64(s, 211)
    &&& h.min[2] as int == le_u64(s, 219)
    &&& h.has_color == format_has_color(s[104])
    &&& h.has_gps_time == format_has_gps_time(s[104])
}

/// Two headers that describe the same bytes are equal.
pub proof fn lemma_header_unique(h1: LasHeader, h2: LasHeader, s: Seq<u8>)
    requires
        header_describes(h1, s),
        header_describes(h2, s),
    ensures
        h1 == h2,
{
    assert(h1.scale =~= h2.scale);
    assert(h1.offset =~= h2.offset);
    assert(h1.min =~= h2.min);
    assert(h1.max =~= h2.max);
}

/// The byte at `i` of a field that holds the `len` bytes `field` from
/// `start` on, or `rest` outside the field.
pub open spec fn field_byte(i: int, start: int, len: int, field: Seq<u8>, rest: u8) -> u8 {
    if start <= i < start + len {
        field[i - start]
    } else {
        rest
    }
}

/// The point count as the 32-bit field holds it: zero where it does not
/// fit.
pub open spec fn legacy_count(count: u64) -> int {
    if count < 0x1_0000_0000 {
        count as int
    } else {
        0
    }
}

/// Byte `i` of the header that holds the values of `h`, and zero wherever
/// the parser reads nothing.
pub open spec fn header_byte(h: LasHeader, i: int) -> u8 {
    let b0 = field_byte(i, 0, 4, seq![0x4cu8, 0x41, 0x53, 0x46], 0);
    let b1 = field_byte(i, 24, 2, seq![h.version_major, h.version_minor], b0);
    let b2 = field_byte(i, 96, 4, le_bytes_u32(h.offset_to_points as int), b1);
    let b3 = field_byte(i, 100, 4, le_bytes_u32(h.num_vlrs as int), b2);
    let b4 = field_byte(i, 104, 1, seq![h.point_data_format], b3);
    let b5 = field_byte(i, 105, 2, le_bytes_u16(h.point_data_record_length as int), b4);
    let b6 = field_byte(i, 107, 4, le_bytes_u32(legacy_count(h.number_of_points)), b5);
    let b7 = field_byte(i, 131, 8, le_bytes_u64(h.scale[0] as int), b6);
    let b8 = field_byte(i, 139, 8, le_bytes_u64(h.scale[1] as int), b7);
    let b9 = field_byte(i, 147, 8, le_bytes_u64(h.scale[2] as int), b8);
    let b10 = field_byte(i, 155, 8, le_bytes_u64(h.offset[0] as int), b9);
    let b11 = field_byte(i, 163, 8, le_bytes_u64(h.offset[1] as int), b10);
    let b12 = field_byte(i, 171, 8, le_bytes_u64(h.offset[2] as int), b11);
    let b13 = field_byte(i, 179, 8, le_bytes_u64(h.max[0] as int), b12);
    let b14 = field_byte(i, 187, 8, le_bytes_u64(h.min[0] as int), b13);
    let b15 = field_byte(i, 195, 8, le_bytes_u64(h.max[1] as int), b14);
    let b16 = field_byte(i, 203, 8, le_bytes_u64(h.min[1] as int), b15);
    let b17 = field_byte(i, 211, 8, le_bytes_u64(h.max[2] as int), b16);
    let b18 = field_byte(i, 219, 8, le_bytes_u64(h.min[2] as int), b17);
    field_byte(i, 247, 8, le_bytes_u64(h.number_of_points as int), b18)
}

/// A header of 255 bytes that holds the values of `h`.
pub open spec fn header_bytes(h: LasHeader) -> Seq<u8> {
    Seq::new(255, |i: int| header_byte(h, i))
}

/// Whether `h` is a header that a file can hold: a supported version, the
/// flags that its point format calls for, and a point count that its
/// version has room for.
pub open spec fn header_consistent(h: LasHeader) -> bool {
    &&& h.version_major == 1
    &&& h.version_minor <= 4
    &&& h.has_color == format_has_color(h.point_data_format)
    &&& h.has_gps_time == format_has_gps_time(h.point_data_format)
    &&& (h.version_minor < 4 ==> h.number_of_points < 0x1_0000_0000)
}

proof fn lemma_field_u64(h: LasHeader, off: int, v: u64)
    requires
        0 <= off,
        off + 8 <= 255,
        forall|j: int| 0 <= j < 8 ==> header_byte(h, off + j) == le_bytes_u64(v as int)[j],
    ensures
        le_u64(header_bytes(h), off) == v,
{
    let s = header_bytes(h);
    assert(s.subrange(off, off + 8) =~= le_bytes_u64(v as int));
    lemma_le_u64_round_trip(s, off, v as int);
}

proof fn lemma_field_u32(h: LasHeader, off: int, v: int)
    requires
        0 <= off,
        off + 4 <= 255,
        0 <= v < 0x1_0000_0000,
        forall|j: int| 0 <= j < 4 ==> header_byte(h, off + j) == le_bytes_u32(v)[j],
    ensures
        le_u32(header_bytes(h), off) == v,
{
    let s = header_bytes(h);
    assert(s.subrange(off, off + 4) =~= le_bytes_u32(v));
    lemma_le_u32_round_trip(s, off, v);
}

#[verifier::rlimit(40)]
proof fn lemma_header_front(h: LasHeader)
    ensures
        header_bytes(h)[0] == 0x4c,
        header_bytes(h)[1] == 0x41,
        header_bytes(h)[2] == 0x53,
        header_bytes(h)[3] == 0x46,
        header_bytes(h)[24] == h.version_major,
        header_bytes(h)[25] == h.version_minor,
        header_bytes(h)[104] == h.point_data_format,
        le_u32(header_bytes(h), 96) == h.offset_to_points,
        le_u32(header_bytes(h), 100) == h.num_vlrs,
        le_u16(header_bytes(h), 105) == h.point_data_record_length,
        le_u32(header_bytes(h), 107) == legacy_count(h.number_of_points),
        le_u64(header_bytes(h), 247) == h.number_of_points,
{
    let s = header_bytes(h);
    lemma_field_u32(h, 96, h.offset_to_points as int);
    lemma_field_u32(h, 100, h.num_vlrs as int);
    assert(s.subrange(105, 107) =~= le_bytes_u16(h.point_data_record_length as int));
    lemma_le_u16_round_trip(s, 105, h.point_data_record_length as int);
    lemma_field_u32(h, 107, legacy_count(h.number_of_points));
    lemma_field_u64(h, 247, h.number_of_points);
}

#[verifier::rlimit(40)]
proof fn lemma_header_scale(h: LasHeader)
    ensures
        le_u64(header_bytes(h), 131) == h.scale[0],
        le_u64(header_bytes(h), 139) == h.scale[1],
        le_u64(header_bytes(h), 147) == h.scale[2],
{
    lemma_field_u64(h, 131, h.scale[0]);
    lemma_field_u64(h, 139, h.scale[1]);
    lemma_field_u64(h, 147, h.scale[2]);
}

#[verifier::rlimit(40)]
proof fn lemma_header_offset(h: LasHeader)
    ensures
        le_u64(header_bytes(h), 155) == h.offset[0],
        le_u64(header_bytes(h), 163) == h.offset[1],
        le_u64(header_bytes(h), 171) == h.offset[2],
{
    lemma_field_u64(h, 155, h.offset[0]);
    lemma_field_u64(h, 163, h.offset[1]);
    lemma_field_u64(h, 171, h.offset[2]);
}

#[verifier::rlimit(40)]
proof fn lemma_header_max(h: LasHeader)
    ensures
        le_u64(header_bytes(h), 179) == h.max[0],
        le_u64(header_bytes(h), 195) == h.max[1],
        le_u64(header_bytes(h), 211) == h.max[2],
{
    lemma_field_u64(h, 179, h.max[0]);
    lemma_field_u64(h, 195, h.max[1]);
    lemma_field_u64(h, 211, h.max[2]);
}

#[verifier::rlimit(40)]
proof fn lemma_header_min(h: LasHeader)
    ensures
        le_u64(header_bytes(h), 187) == h.min[0],
        le_u64(header_bytes(h), 203) == h.min[1],
        le_u64(header_bytes(h), 219) == h.min[2],
{
    lemma_field_u64(h, 187, h.min[0]);
    lemma_field_u64(h, 203, h.min[1]);
    lemma_field_u64(h, 219, h.min[2]);
}

/// Parsing the bytes that hold a header gives that header: the bytes pass
/// every check, and every field read from them is the value that was put
/// there.
#[verifier::rlimit(40)]
pub proof fn lemma_header_round_trip(h: LasHeader)
    requires
        header_consistent(h),
    ensures
        header_fault(header_bytes(h)) is None,
        header_describes(h, header_bytes(h)),
{
    lemma_header_front(h);
    lemma_header_scale(h);
    lemma_header_offset(h);
    lemma_header_max(h);
    lemma_header_min(h);
}

/// Parses the fixed header of a LAS file.
pub fn parse_las_header(data: &[u8]) -> (r: Result<LasHeader, HeaderFault>)
    ensures
        match r {
            Ok(h) => header_fault(data@) is None && header_describes(h, data@),
            Err(e) => header_fault(data@) == Some(e),
        },
{
    if data.len() < HEADER_MIN_LEN {
        return Err(HeaderFault::TooShort);
    }
    if data[0] != 0x4c || data[1] != 0x41 || data[2] != 0x53 || data[3] != 0x46 {
        return Err(HeaderFault::BadSignature);
    }
    let version_major: u8 = data[24];
    let version_minor: u8 = data[25];
    if version_major != 1 || version_minor > 4 {
        return Err(HeaderFault::UnsupportedVersion { major: version_major, minor: version_minor });
    }
    let offset_to_points: u32 = read_u32(data, 96);
    let num_vlrs: u32 = read_u32(data, 100);
    let point_data_format: u8 = data[104];
    let point_data_record_length: u16 = read_u16(data, 105);
    let number_of_points: u64 = if version_minor >= 4 && data.len() >= HEADER_LEN_WITH_COUNT64 {
        read_u64(data, 247)
    } else {
        read_u32(data, 107) as u64
    };
    let scale: [u64; 3] = [read_u64(data, 131), read_u64(data, 139), read_u64(data, 147)];
    let offset: [u64; 3] = [read_u64(data, 155), read_u64(data, 163), read_u64(data, 171)];
    let max_x: u64 = read_u64(data, 179);
    let min_x: u64 = read_u64(data, 187);
    let max_y: u64 = read_u64(data, 195);
    let min_y: u64 = read_u64(data, 203);
    let max_z: u64 = read_u64(data, 211);
    let min_z: u64 = read_u64(data, 219);
    let f: u8 = point_data_format;
    let has_color: bool = f == 2 || f == 3 || f == 5 || f == 7 || f == 8 || f == 10;
    let has_gps_time: bool = f == 1 || (3 <= f && f <= 10);
    Ok(
        LasHeader {
            version_major,
            version_minor,
            point_data_format,
            point_data_record_length,
            number_of_points,
            offset_to_points,
            num_vlrs,
            scale,
            offset,
            min: [min_x, min_y, min_z],
            max: [max_x, max_y, max_z],
            has_color,
            has_gps_time,
        },
    )
}

} // verus!
