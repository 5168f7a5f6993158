//! The LASzip record of a compressed file: where it lies among the
//! variable-length records, and what the `laz` crate reads from it.

use vstd::prelude::*;
use crate::bytes::le_u16;
use crate::bytes::read_u16;
use crate::header::LasHeader;

verus! {

/// The record id of the LASzip record.
pub const LASZIP_RECORD_ID: u16 = 22204;

/// Bytes of the header of a variable-length record: reserved (2), user id
/// (16), record id (2), record length (2), description (32).
pub const VLR_HEADER_LEN: usize = 54;

/// Where the variable-length records begin: after a fixed header of 227
/// bytes, or of 235 bytes from version 1.3 on.
pub open spec fn vlr_start(minor: u8) -> int {
    if minor >= 3 {
        235
    } else {
        227
    }
}

/// The bytes of `laszip encoded`, with which the user id of the LASzip
/// record begins.
pub open spec fn laszip_user_id() -> Seq<u8> {
    seq![
        0x6cu8,
        0x61,
        0x73,
        0x7a,
        0x69,
        0x70,
        0x20,
        0x65,
        0x6e,
        0x63,
        0x6f,
        0x64,
        0x65,
        0x64,
    ]
}

/// Whether the 14 bytes at `off` spell `laszip encoded`.
pub open spec fn is_laszip_user(s: Seq<u8>, off: int) -> bool {
    s.subrange(off, off + 14) == laszip_user_id()
}

/// The byte range of the data of the first LASzip record among the next
/// `remaining` variable-length records from `offset` on. The scan ends
/// where a record header would pass the start of the point data or the end
/// of the file; a LASzip record whose data passes the end of the file is
/// passed over.
pub open spec fn vlr_scan(s: Seq<u8>, limit: int, offset: int, remaining: nat) -> Option<(int, int)>
    decreases remaining,
{
    if remaining == 0 || offset + VLR_HEADER_LEN > limit || offset + VLR_HEADER_LEN > s.len() {
        None
    } else {
        let start = offset + VLR_HEADER_LEN;
        let end = start + le_u16(s, offset + 20);
        if le_u16(s, offset + 18) == LASZIP_RECORD_ID && is_laszip_user(s, offset + 2) && end
            <= s.len() {
            Some((start, end))
        } else {
            vlr_scan(s, limit, end, (remaining - 1) as nat)
        }
    }
}

/// The byte range of the data of the LASzip record of a file.
pub open spec fn laszip_range(s: Seq<u8>, h: LasHeader) -> Option<(int, int)> {
    vlr_scan(s, h.offset_to_points as int, vlr_start(h.version_minor), h.num_vlrs as nat)
}

fn user_is_laszip(data: &[u8], off: usize) -> (r: bool)
    requires
        off + 14 <= data@.len(),
    ensures
        r == is_laszip_user(data@, off as int),
{
    let n: usize = data.len();
    let name: [u8; 14] = [
        0x6c,
        0x61,
        0x73,
        0x7a,
        0x69,
        0x70,
        0x20,
        0x65,
        0x6e,
        0x63,
        0x6f,
        0x64,
        0x65,
        0x64,
    ];
    let ghost want = laszip_user_id();
    assert(name@ =~= want);
    let mut i: usize = 0;
    while i < 14
        invariant
            i <= 14,
            n == data@.len(),
            off + 14 <= data@.len(),
            name@ == want,
            want == laszip_user_id(),
            forall|j: int| 0 <= j < i ==> data@[off + j] == want[j],
        decreases 14 - i,
    {
        if data[off + i] != name[i] {
            proof {
                let sub = data@.subrange(off as int, off + 14);
                assert(sub[i as int] == data@[off + i]);
                assert(name@[i as int] == want[i as int]);
                assert(sub[i as int] != want[i as int]);
                assert(sub != want);
            }
            return false;
        }
        i = i + 1;
    }
    assert(data@.subrange(off as int, off + 14) =~= want);
    true
}

/// Finds the LASzip record among the variable-length records and returns
/// the byte range of its data.
pub fn find_laszip_range(data: &[u8], h: &LasHeader) -> (r: Option<(usize, usize)>)
    ensures
        match r {
            Some((a, b)) => laszip_range(data@, *h) == Some((a as int, b as int)) && a <= b
                <= data@.len(),
            None => laszip_range(data@, *h) is None,
        },
{
    let len: usize = data.len();
    let limit: u64 = h.offset_to_points as u64;
    let mut offset: u64 = if h.version_minor >= 3 { 235 } else { 227 };
    let mut remaining: u32 = h.num_vlrs;
    while remaining > 0
        invariant
            len == data@.len(),
            limit == h.offset_to_points,
            offset <= u32::MAX + 0x2_0000,
            laszip_range(data@, *h) == vlr_scan(data@, limit as int, offset as int, remaining as nat),
        decreases remaining,
    {
        if offset + 54 > limit || offset + 54 > len as u64 {
            return None;
        }
        let at: usize = offset as usize;
        let record_id: u16 = read_u16(data, at + 18);
        let record_length: u64 = read_u16(data, at + 20) as u64;
        let start: u64 = offset + 54;
        let end: u64 = start + record_length;
        if record_id == LASZIP_RECORD_ID && user_is_laszip(data, at + 2) {
            if end <= len as u64 {
                return Some((start as usize, end as usize));
            }
        }
        offset = end;
        remaining = remaining - 1;
    }
    None
}

/// Why the `laz` crate could not read compressed data.
#[derive(Debug, Clone, Copy, PartialEq, Eq, Structural)]
pub enum LazFault {
    UnknownLazItem,
    UnsupportedLazItemVersion,
    UnknownCompressorType,
    UnsupportedCompressorType,
    UnsupportedPointFormat,
    IoError,
    MissingChunkTable,
    Other,
}

/// `laz::LazVlr`: what a LASzip record says of the compressed data. Its
/// contents are not looked into.
#[verifier::external_type_specification]
#[verifier::external_body]
pub struct ExLazVlr(laz::LazVlr);

/// `laz::LasZipError`: the errors of the `laz` crate.
#[verifier::external_type_specification]
#[verifier::external_body]
pub struct ExLasZipError(laz::LasZipError);

/// Whether `t` is the code of an item of a point record that `laz` knows:
/// 0 (extra bytes) or 6 to 14.
pub open spec fn is_laz_item_type(t: int) -> bool {
    t == 0 || 6 <= t <= 14
}

/// Whether the data of a LASzip record can be read: it holds the fixed
/// part of 34 bytes, whose first field, the compressor type, is at most 3
/// and whose last field counts the items; and it holds six bytes for each
/// item, the first two of which are the code of a known item. Bytes after
/// the items are not looked at.
pub open spec fn laz_vlr_reads(record: Seq<u8>) -> bool {
    &&& record.len() >= 34
    &&& le_u16(record, 0) <= 3
    &&& record.len() >= 34 + 6 * le_u16(record, 32)
    &&& forall|i: int|
        0 <= i < le_u16(record, 32) ==> is_laz_item_type(#[trigger] le_u16(record, 34 + 6 * i))
}

/// `laz::LazVlr::from_buffer`: reads the LASzip record data. It reads the
/// compressor type and refuses one above 3, reads the rest of the fixed
/// part (coder, version, options, chunk size, two 64-bit fields, item
/// count), and then type, size and version of each item, refusing an
/// unknown type; it fails where the bytes end before that. The contract
/// says when it succeeds, and nothing of the value.
#[verifier::external_body]
pub(crate) fn parse_laz_vlr(record_data: &[u8]) -> (r: Result<laz::LazVlr, laz::LasZipError>)
    ensures
        r is Ok <==> laz_vlr_reads(record_data@),
{
    laz::LazVlr::from_buffer(record_data)
}

/// Tells the variants of `laz::LasZipError` apart. Nothing is stated of
/// which one an error is.
#[verifier::external_body]
pub(crate) fn laz_fault(e: &laz::LasZipError) -> (r: LazFault)
{
    match e {
        laz::LasZipError::UnknownLazItem(_) => LazFault::UnknownLazItem,
        laz::LasZipError::UnsupportedLazItemVersion(_, _) => LazFault::UnsupportedLazItemVersion,
        laz::LasZipError::UnknownCompressorType(_) => LazFault::UnknownCompressorType,
        laz::LasZipError::UnsupportedCompressorType(_) => LazFault::UnsupportedCompressorType,
        laz::LasZipError::UnsupportedPointFormat(_) => LazFault::UnsupportedPointFormat,
        laz::LasZipError::IoError(_) => LazFault::IoError,
        laz::LasZipError::MissingChunkTable => LazFault::MissingChunkTable,
        _ => LazFault::Other,
    }
}

} // verus!
