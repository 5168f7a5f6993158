//! Point records of a LAS file, and the parser that hands them out.

use vstd::prelude::*;
use vstd::string::StringExecFns;
use crate::bytes::le_i32;
use crate::bytes::le_u16;
use crate::bytes::read_i32;
use crate::bytes::read_u16;
use crate::fixed::add_clamped;
use crate::fixed::clamped;
use crate::fixed::coord_ok;
use crate::fixed::micro_saturated;
use crate::fixed::saturated;
use crate::header::HeaderFault;
use crate::text::decimal;
use crate::text::decimal_text;
use crate::header::LasHeader;
use crate::header::format_has_color;
use crate::header::header_describes;
use crate::header::header_fault;
use crate::header::parse_las_header;
use crate::laszip::LazFault;
use crate::laszip::find_laszip_range;
use crate::laszip::laszip_range;
use crate::laszip::laz_fault;
use crate::laszip::laz_vlr_reads;
use crate::laszip::parse_laz_vlr;
use crate::types::BoundingBox3D;
use crate::types::PointRecord;
use crate::types::PointcloudMetadata;

verus! {

/// Why a file could not be read.
#[derive(Debug, Clone, Copy, PartialEq, Eq, Structural)]
pub enum ParseError {
    /// A check of the fixed header failed.
    InvalidHeader(HeaderFault),
    /// The compressed data names a point format that is not supported.
    UnsupportedFormat,
    /// The record length of the header is too short for the fields of a
    /// point.
    TruncatedRecord,
    /// A compressed file holds no LASzip record.
    LazVlrMissing,
    /// The compressed point data could not be read.
    LazDecompressError,
    /// The file holds more points than an octree takes (2^32 - 1).
    TooManyPoints,
}

/// The text of a header fault.
pub open spec fn fault_text(f: HeaderFault) -> Seq<char> {
    match f {
        HeaderFault::TooShort => "File too small for LAS header"@,
        HeaderFault::BadSignature => "Not a LAS file (invalid signature)"@,
        HeaderFault::UnsupportedVersion { major, minor } => "Unsupported LAS version "@ + decimal(
            major as nat,
        ) + "."@ + decimal(minor as nat),
    }
}

/// The text of an error.
pub open spec fn error_text(e: ParseError) -> Seq<char> {
    match e {
        ParseError::InvalidHeader(f) => fault_text(f),
        ParseError::UnsupportedFormat => "Unsupported point format"@,
        ParseError::TruncatedRecord => "Point record too short"@,
        ParseError::LazVlrMissing => "LASzip VLR not found in LAZ file"@,
        ParseError::LazDecompressError => "LAZ decompression error"@,
        ParseError::TooManyPoints => "Too many points"@,
    }
}

impl ParseError {
    /// The error as text.
    pub fn message(&self) -> (s: String)
        ensures
            s@ == error_text(*self),
    {
        match self {
            ParseError::InvalidHeader(HeaderFault::TooShort) => String::from_str(
                "File too small for LAS header",
            ),
            ParseError::InvalidHeader(HeaderFault::BadSignature) => String::from_str(
                "Not a LAS file (invalid signature)",
            ),
            ParseError::InvalidHeader(HeaderFault::UnsupportedVersion { major, minor }) => {
                String::from_str("Unsupported LAS version ").concat(
                    decimal_text(*major as u128).as_str(),
                ).concat(".").concat(decimal_text(*minor as u128).as_str())
            },
            ParseError::UnsupportedFormat => String::from_str("Unsupported point format"),
            ParseError::TruncatedRecord => String::from_str("Point record too short"),
            ParseError::LazVlrMissing => String::from_str("LASzip VLR not found in LAZ file"),
            ParseError::LazDecompressError => String::from_str("LAZ decompression error"),
            ParseError::TooManyPoints => String::from_str("Too many points"),
        }
    }
}

/// Byte offset of the RGB triple in a point record of `format`; 0 where
/// the format has none.
pub open spec fn color_offset(format: u8) -> int {
    if format == 2 {
        20
    } else if format == 3 || format == 5 {
        28
    } else if format == 7 || format == 8 || format == 10 {
        30
    } else {
        0
    }
}

/// Byte offset of the classification in a point record of `format`.
pub open spec fn classification_offset(format: u8) -> int {
    if format >= 6 {
        16
    } else {
        15
    }
}

/// Bytes a point record of `format` needs for position, intensity and
/// classification.
pub open spec fn min_record_len(format: u8) -> int {
    classification_offset(format) + 1
}

/// The high byte of the 16-bit colour channel at `off`.
pub open spec fn channel(rec: Seq<u8>, off: int) -> u8 {
    (le_u16(rec, off) / 0x100) as u8
}

/// Whether a record of `format` and of this length holds an RGB triple.
pub open spec fn record_has_color(rec: Seq<u8>, format: u8) -> bool {
    format_has_color(format) && color_offset(format) + 5 < rec.len()
}

/// A lattice coordinate in millionths of a unit: the lattice coordinate
/// times the scale, rounded to the nearest millionth, plus the offset,
/// rounded to the nearest millionth; each of the two and their sum held
/// within the coordinate limit.
pub open spec fn world_coord(lattice: int, scale_bits: u64, offset_bits: u64) -> int {
    clamped(saturated(lattice, scale_bits) + saturated(1, offset_bits))
}

/// The point that a record of at least `min_record_len` bytes holds.
#[verifier::opaque]
pub open spec fn decode_record(rec: Seq<u8>, h: LasHeader) -> PointRecord {
    let f = h.point_data_format;
    let co = color_offset(f);
    let colored = record_has_color(rec, f);
    PointRecord {
        x: world_coord(le_i32(rec, 0), h.scale[0], h.offset[0]) as i64,
        y: world_coord(le_i32(rec, 4), h.scale[1], h.offset[1]) as i64,
        z: world_coord(le_i32(rec, 8), h.scale[2], h.offset[2]) as i64,
        r: if colored { channel(rec, co) } else { 128 },
        g: if colored { channel(rec, co + 2) } else { 128 },
        b: if colored { channel(rec, co + 4) } else { 128 },
        intensity: le_u16(rec, 12) as u16,
        classification: rec[classification_offset(f)],
    }
}

/// Whatever bytes a record holds, its point lies within the coordinate
/// limit.
pub proof fn lemma_decoded_valid(rec: Seq<u8>, h: LasHeader)
    ensures
        decode_record(rec, h).valid(),
{
    reveal(decode_record);
}

/// The bounds of the header, in millionths, each held within the
/// coordinate limit.
pub open spec fn header_bounds(h: LasHeader) -> BoundingBox3D {
    BoundingBox3D {
        min_x: saturated(1, h.min[0]) as i64,
        min_y: saturated(1, h.min[1]) as i64,
        min_z: saturated(1, h.min[2]) as i64,
        max_x: saturated(1, h.max[0]) as i64,
        max_y: saturated(1, h.max[1]) as i64,
        max_z: saturated(1, h.max[2]) as i64,
    }
}

/// Why the file with the bytes `s` is refused, if it is: a check of the
/// header fails.
pub open spec fn refusal(s: Seq<u8>) -> Option<ParseError> {
    match header_fault(s) {
        Some(f) => Some(ParseError::InvalidHeader(f)),
        None => None,
    }
}

/// Byte offset of the RGB triple within a point record.
pub fn color_byte_offset(format: u8) -> (r: usize)
    ensures
        r as int == color_offset(format),
{
    match format {
        2 => 20,
        3 => 28,
        5 => 28,
        7 => 30,
        8 => 30,
        10 => 30,
        _ => 0,
    }
}

/// The coordinate of a lattice coordinate.
fn coordinate(lattice: i32, scale_bits: u64, offset_bits: u64) -> (r: i64)
    ensures
        r as int == world_coord(lattice as int, scale_bits, offset_bits),
        coord_ok(r as int),
{
    add_clamped(micro_saturated(lattice, scale_bits), micro_saturated(1, offset_bits))
}

/// Decodes the point record that starts at byte `at` of `data`.
#[verifier::rlimit(40)]
pub fn decode_point(data: &[u8], at: usize, h: &LasHeader) -> (p: PointRecord)
    requires
        at + h.point_data_record_length <= data@.len(),
        h.point_data_record_length >= min_record_len(h.point_data_format),
    ensures
        p == decode_record(
            data@.subrange(at as int, at + h.point_data_record_length),
            *h,
        ),
        coord_ok(p.x as int),
        coord_ok(p.y as int),
        coord_ok(p.z as int),
{
    let _len: usize = data.len();
    let len: usize = h.point_data_record_length as usize;
    let ghost rec = data@.subrange(at as int, at + len);
    let format: u8 = h.point_data_format;
    proof {
        reveal(decode_record);
        assert forall|k: int| 0 <= k < len implies rec[k] == data@[at + k] by {}
    }
    let xi: i32 = read_i32(data, at);
    let yi: i32 = read_i32(data, at + 4);
    let zi: i32 = read_i32(data, at + 8);
    let x: i64 = coordinate(xi, h.scale[0], h.offset[0]);
    let y: i64 = coordinate(yi, h.scale[1], h.offset[1]);
    let z: i64 = coordinate(zi, h.scale[2], h.offset[2]);
    let intensity: u16 = read_u16(data, at + 12);
    let classification: u8 = if format >= 6 {
        data[at + 16]
    } else {
        data[at + 15]
    };
    let co: usize = color_byte_offset(format);
    let colored: bool = co > 0 && co + 5 < len;
    let r: u8 = if colored { (read_u16(data, at + co) / 0x100) as u8 } else { 128 };
    let g: u8 = if colored { (read_u16(data, at + co + 2) / 0x100) as u8 } else { 128 };
    let b: u8 = if colored { (read_u16(data, at + co + 4) / 0x100) as u8 } else { 128 };
    PointRecord { x, y, z, r, g, b, intensity, classification }
}

/// The text of a LAS version, such as `1.4`.
pub open spec fn version_text(minor: u8) -> Seq<char> {
    seq!['1', '.', (if minor == 0 {
        '0'
    } else if minor == 1 {
        '1'
    } else if minor == 2 {
        '2'
    } else if minor == 3 {
        '3'
    } else {
        '4'
    })]
}

fn version_string(minor: u8) -> (r: String)
    requires
        minor <= 4,
    ensures
        r@ == version_text(minor),
{
    proof {
        reveal_strlit("1.0");
        reveal_strlit("1.1");
        reveal_strlit("1.2");
        reveal_strlit("1.3");
        reveal_strlit("1.4");
    }
    let r = if minor == 0 {
        String::from_str("1.0")
    } else if minor == 1 {
        String::from_str("1.1")
    } else if minor == 2 {
        String::from_str("1.2")
    } else if minor == 3 {
        String::from_str("1.3")
    } else {
        String::from_str("1.4")
    };
    assert(r@ =~= version_text(minor));
    r
}

/// Whether `c` is the ASCII letter `lower`, in either case.
pub open spec fn is_letter(c: char, lower: char) -> bool {
    c == lower || c as int == lower as int - 32
}

/// Whether an extension is `laz`, whatever the case of its letters.
pub open spec fn is_laz_extension(ext: Seq<char>) -> bool {
    ext.len() == 3 && is_letter(ext[0], 'l') && is_letter(ext[1], 'a') && is_letter(ext[2], 'z')
}

/// Compares an extension with `laz` without regard to case.
pub fn extension_is_laz(ext: &str) -> (r: bool)
    ensures
        r == is_laz_extension(ext@),
{
    if ext.unicode_len() != 3 {
        return false;
    }
    let c0: char = ext.get_char(0);
    let c1: char = ext.get_char(1);
    let c2: char = ext.get_char(2);
    (c0 == 'l' || c0 == 'L') && (c1 == 'a' || c1 == 'A') && (c2 == 'z' || c2 == 'Z')
}

/// Whether `part` stands in `path` from index `i` on.
pub open spec fn part_at(path: Seq<char>, i: int, part: Seq<char>) -> bool {
    0 <= i && i + part.len() <= path.len() && path.subrange(i, i + part.len()) == part
}

/// Whether `name` stands somewhere in `path`.
pub open spec fn is_part_of(path: Seq<char>, name: Seq<char>) -> bool {
    exists|i: int| part_at(path, i, name)
}

/// Whether `ext` can be the extension of `path`: it holds no dot, and
/// stands in `path` behind a dot.
pub open spec fn is_extension_in(path: Seq<char>, ext: Seq<char>) -> bool {
    &&& !ext.contains('.')
    &&& exists|i: int| 0 <= i < path.len() && path[i] == '.' && #[trigger] part_at(path, i + 1, ext)
}

/// Whether `path` holds a dot and behind it `laz` in any case, with no dot
/// between: what a path needs for its extension to be `laz`.
pub open spec fn names_laz(path: Seq<char>) -> bool {
    exists|ext: Seq<char>| #[trigger] is_extension_in(path, ext) && is_laz_extension(ext)
}

/// `std::path::Path::extension` on `path`: the part of the file name after
/// its last dot, where the path has a file name with a dot that is not its
/// first character. The file name is the last component of the path, so
/// an extension holds no dot and stands in the path behind a dot. Which
/// part of a path is its last component depends on the platform's
/// separators, so it is not stated when there is an extension.
#[verifier::external_body]
fn path_extension(path: &str) -> (r: Option<String>)
    ensures
        r is Some ==> is_extension_in(path@, r->Some_0@),
{
    std::path::Path::new(path).extension().and_then(|e| e.to_str()).map(|e| e.to_string())
}

/// `std::path::Path::file_name` on `path`: its last component, where the
/// path has one; it stands in the path. Which part that is depends on the
/// platform's separators, so no more is stated.
#[verifier::external_body]
fn path_file_name(path: &str) -> (r: Option<String>)
    ensures
        r is Some ==> is_part_of(path@, r->Some_0@),
{
    std::path::Path::new(path).file_name().and_then(|n| n.to_str()).map(|n| n.to_string())
}

/// The number of whole records from index `start` on that a file of
/// `file_len` bytes holds, at most `want`.
#[verifier::opaque]
pub open spec fn records_in_file(file_len: int, begin: int, len: int, start: int, want: int) -> int {
    if want <= 0 || file_len < begin {
        0
    } else if len == 0 {
        want
    } else {
        let whole = (file_len - begin) / len - start;
        if whole <= 0 {
            0
        } else if whole < want {
            whole
        } else {
            want
        }
    }
}

/// One batch of points as `stream_points` hands it to a sink.
pub struct Delivery {
    pub points: Seq<PointRecord>,
    pub start_index: int,
}

/// Takes the points of a file batch by batch.
pub trait PointSink {
    /// The batches taken so far. A sink that keeps no record of them
    /// says nothing of them.
    open spec fn received(&self) -> Seq<Delivery> {
        arbitrary()
    }

    /// The answers given so far, one for each batch taken: whether the
    /// sink asked for more.
    open spec fn answers(&self) -> Seq<bool> {
        arbitrary()
    }

    /// Takes the batch that starts at point `start_index`; `false` ends the
    /// streaming.
    fn accept(&mut self, batch: &[PointRecord], start_index: u64) -> (go_on: bool)
        ensures
            final(self).received() == old(self).received().push(
                Delivery { points: batch@, start_index: start_index as int },
            ),
            final(self).answers() == old(self).answers().push(go_on),
    ;
}

/// Whether `after` is `before` and `k` answers more, of which every one
/// but the last asked for more.
pub open spec fn answered(before: Seq<bool>, after: Seq<bool>, k: int) -> bool {
    &&& after.len() == before.len() + k
    &&& after.take(before.len() as int) == before
    &&& forall|i: int| before.len() <= i < after.len() - 1 ==> #[trigger] after[i]
}

/// The size of the batch that starts at `offset`: the batch size, unless
/// fewer points are claimed or at hand.
pub open spec fn batch_len(at_hand: int, claimed: int, batch: int, offset: int) -> int {
    let a = if batch < claimed - offset { batch } else { claimed - offset };
    let b = if a < at_hand - offset { a } else { at_hand - offset };
    if b < 0 { 0 } else { b }
}

/// The batches in which `all` is delivered from `offset` on, where the
/// header claims `claimed` points: one batch after the other until the
/// claimed number is reached; an empty batch is delivered and ends the
/// sequence.
pub open spec fn batches_of(all: Seq<PointRecord>, claimed: int, batch: int, offset: int) -> Seq<Delivery>
    decreases claimed - offset,
{
    if offset < 0 || offset >= claimed {
        Seq::empty()
    } else {
        let n = batch_len(all.len() as int, claimed, batch, offset);
        let d = Delivery { points: all.subrange(offset, offset + n), start_index: offset };
        if n <= 0 {
            seq![d]
        } else {
            seq![d] + batches_of(all, claimed, batch, offset + n)
        }
    }
}

/// The points of the deliveries, one after the other.
pub open spec fn delivered_points(ds: Seq<Delivery>) -> Seq<PointRecord>
    decreases ds.len(),
{
    if ds.len() == 0 {
        Seq::empty()
    } else {
        delivered_points(ds.drop_last()) + ds.last().points
    }
}

/// A LAS or LAZ file held in memory, with its parsed header.
pub struct PointcloudParser {
    data: Vec<u8>,
    header: LasHeader,
    is_laz: bool,
}

impl PointcloudParser {
    /// The bytes of the file.
    pub closed spec fn file(&self) -> Seq<u8> {
        self.data@
    }

    /// The parsed header.
    pub closed spec fn las_header(&self) -> LasHeader {
        self.header
    }

    /// Whether the point data is LASzip-compressed.
    pub closed spec fn compressed(&self) -> bool {
        self.is_laz
    }

    /// The header passed its checks and describes the file.
    #[verifier::opaque]
    pub open spec fn wf(&self) -> bool {
        &&& header_fault(self.file()) is None
        &&& header_describes(self.las_header(), self.file())
    }

    /// Byte at which record `i` starts.
    pub open spec fn record_start(&self, i: int) -> int {
        self.las_header().offset_to_points + i * self.las_header().point_data_record_length
    }

    /// The bytes of record `i`.
    pub open spec fn record_bytes(&self, i: int) -> Seq<u8> {
        self.file().subrange(
            self.record_start(i),
            self.record_start(i) + self.las_header().point_data_record_length,
        )
    }

    /// The point of record `i` of an uncompressed file.
    pub open spec fn point_at(&self, i: int) -> PointRecord {
        decode_record(self.record_bytes(i), self.las_header())
    }

    /// How many points `read_points(start, count)` hands out: at most
    /// `count`, no more than the header counts from `start` on, and no more
    /// than whole records lie in the file.
    pub open spec fn readable(&self, start: int, count: int) -> int {
        let h = self.las_header();
        let rest = h.number_of_points - start;
        records_in_file(
            self.file().len() as int,
            h.offset_to_points as int,
            h.point_data_record_length as int,
            start,
            if count < rest { count } else { rest },
        )
    }

    /// Parses the header of `data`; `is_laz` says whether the points are
    /// LASzip-compressed.
    #[verifier::rlimit(40)]
    pub fn with_format(data: Vec<u8>, is_laz: bool) -> (r: Result<PointcloudParser, ParseError>)
        ensures
            match r {
                Ok(p) => p.wf() && p.file() == data@ && p.compressed() == is_laz && refusal(
                    data@,
                ) is None,
                Err(e) => refusal(data@) == Some(e),
            },
    {
        let header = match parse_las_header(data.as_slice()) {
            Ok(h) => h,
            Err(f) => {
                return Err(ParseError::InvalidHeader(f));
            },
        };
        let p = PointcloudParser { data, header, is_laz };
        assert(p.wf()) by {
            reveal(PointcloudParser::wf);
        }
        Ok(p)
    }

    /// Opens the file whose bytes are `data`. The extension of `file_path`
    /// selects the compressed path when it is `laz` in any case; what the
    /// extension of a path is, the platform decides, but a path without
    /// `.laz` in it has none that is `laz`.
    pub fn open(file_path: &str, data: Vec<u8>) -> (r: Result<PointcloudParser, ParseError>)
        ensures
            match r {
                Ok(p) => {
                    &&& p.wf()
                    &&& p.file() == data@
                    &&& refusal(data@) is None
                    &&& p.compressed() ==> names_laz(file_path@)
                },
                Err(e) => refusal(data@) == Some(e),
            },
    {
        let is_laz: bool = match path_extension(file_path) {
            Some(ext) => extension_is_laz(ext.as_str()),
            None => false,
        };
        Self::with_format(data, is_laz)
    }

    /// The parsed header.
    pub fn header(&self) -> (h: &LasHeader)
        ensures
            *h == self.las_header(),
    {
        &self.header
    }

    /// Whether the point data is LASzip-compressed.
    pub fn is_laz(&self) -> (r: bool)
        ensures
            r == self.compressed(),
    {
        self.is_laz
    }

    /// The number of points that the header counts.
    pub fn total_points(&self) -> (n: u64)
        ensures
            n == self.las_header().number_of_points,
    {
        self.header.number_of_points
    }

    /// The bounds of the header, in millionths, each held within the
    /// coordinate limit.
    pub fn bounds(&self) -> (b: BoundingBox3D)
        ensures
            b == header_bounds(self.las_header()),
            b.in_limits(),
    {
        BoundingBox3D {
            min_x: micro_saturated(1, self.header.min[0]),
            min_y: micro_saturated(1, self.header.min[1]),
            min_z: micro_saturated(1, self.header.min[2]),
            max_x: micro_saturated(1, self.header.max[0]),
            max_y: micro_saturated(1, self.header.max[1]),
            max_z: micro_saturated(1, self.header.max[2]),
        }
    }

    /// The metadata of the file, under the given id, path and file name;
    /// without a file name it is `unknown`.
    pub fn metadata_named(&self, id: &str, file_path: &str, file_name: Option<String>) -> (m:
        PointcloudMetadata)
        requires
            self.wf(),
        ensures
            m.id@ == id@,
            m.file_path@ == file_path@,
            m.file_name@ == (match file_name {
                Some(n) => n@,
                None => "unknown"@,
            }),
            m.format@ == (if self.compressed() { "LAZ"@ } else { "LAS"@ }),
            m.total_points == self.las_header().number_of_points,
            m.bounds == header_bounds(self.las_header()),
            m.bounds.in_limits(),
            m.has_color == self.las_header().has_color,
            m.has_intensity,
            m.has_classification,
            m.point_record_format == self.las_header().point_data_format,
            m.las_version@ == version_text(self.las_header().version_minor),
    {
        proof {
            reveal(PointcloudParser::wf);
        }
        let name: String = match file_name {
            Some(n) => n,
            None => String::from_str("unknown"),
        };
        PointcloudMetadata {
            id: String::from_str(id),
            file_path: String::from_str(file_path),
            file_name: name,
            format: if self.is_laz { String::from_str("LAZ") } else { String::from_str("LAS") },
            total_points: self.header.number_of_points,
            bounds: self.bounds(),
            has_color: self.header.has_color,
            has_intensity: true,
            has_classification: true,
            point_record_format: self.header.point_data_format,
            las_version: version_string(self.header.version_minor),
        }
    }

    /// The metadata of the file. The file name is the last component of
    /// `file_path` as the platform sees it, or `unknown`.
    pub fn metadata(&self, id: &str, file_path: &str) -> (m: PointcloudMetadata)
        requires
            self.wf(),
        ensures
            m.id@ == id@,
            m.file_path@ == file_path@,
            m.file_name@ == "unknown"@ || is_part_of(file_path@, m.file_name@),
            m.format@ == (if self.compressed() { "LAZ"@ } else { "LAS"@ }),
            m.total_points == self.las_header().number_of_points,
            m.bounds == header_bounds(self.las_header()),
            m.has_color == self.las_header().has_color,
            m.has_intensity,
            m.has_classification,
            m.point_record_format == self.las_header().point_data_format,
            m.las_version@ == version_text(self.las_header().version_minor),
    {
        let name = path_file_name(file_path);
        self.metadata_named(id, file_path, name)
    }

    /// Records lie one after the other.
    proof fn lemma_record_start(&self, i: int, j: int)
        requires
            0 <= i < j,
        ensures
            0 <= self.record_start(i),
            self.record_start(i) + self.las_header().point_data_record_length
                <= self.record_start(j),
    {
        let len = self.las_header().point_data_record_length as int;
        assert(0 <= i * len && i * len + len <= j * len) by (nonlinear_arith)
            requires
                0 <= i < j,
                0 <= len,
        ;
    }

    /// Decodes record `index`, which lies before record `end`.
    fn point(&self, index: u64, Ghost(end): Ghost<int>) -> (p: PointRecord)
        requires
            self.wf(),
            index < end,
            self.record_start(end) <= self.file().len(),
            self.las_header().point_data_record_length >= min_record_len(
                self.las_header().point_data_format,
            ),
        ensures
            p == self.point_at(index as int),
            coord_ok(p.x as int),
            coord_ok(p.y as int),
            coord_ok(p.z as int),
    {
        proof {
            self.lemma_record_start(index as int, end);
        }
        let n: usize = self.data.len();
        let len: u128 = self.header.point_data_record_length as u128;
        assert(index * len <= 0xffff_ffff_ffff_ffff * 0xffff) by (nonlinear_arith)
            requires
                0 <= index <= 0xffff_ffff_ffff_ffff,
                0 <= len <= 0xffff,
        ;
        let at: u128 = self.header.offset_to_points as u128 + (index as u128) * len;
        decode_point(self.data.as_slice(), at as usize, &self.header)
    }

    /// Reads a range of points from an uncompressed file: the records
    /// `start_index`, `start_index + 1`, ... as far as `count`, the header's
    /// point count and the file's length allow.
    #[verifier::rlimit(40)]
    pub fn read_points(&self, start_index: u64, count: u64) -> (r: Result<
        Vec<PointRecord>,
        ParseError,
    >)
        requires
            self.wf(),
        ensures
            match r {
                Ok(v) => {
                    &&& v@.len() == self.readable(start_index as int, count as int)
                    &&& forall|i: int|
                        0 <= i < v@.len() ==> #[trigger] v@[i] == self.point_at(start_index + i)
                    &&& forall|i: int|
                        0 <= i < v@.len() ==> coord_ok(v@[i].x as int) && coord_ok(
                            v@[i].y as int,
                        ) && coord_ok(v@[i].z as int)
                    &&& (v@.len() > 0 ==> self.las_header().point_data_record_length
                        >= min_record_len(self.las_header().point_data_format))
                },
                Err(e) => {
                    &&& e == ParseError::TruncatedRecord
                    &&& self.readable(start_index as int, count as int) > 0
                    &&& self.las_header().point_data_record_length < min_record_len(
                        self.las_header().point_data_format,
                    )
                },
            },
    {
        let len: u64 = self.header.point_data_record_length as u64;
        let begin: u64 = self.header.offset_to_points as u64;
        let total: u64 = self.header.number_of_points;
        let file_len: u64 = self.data.len() as u64;
        let rest: u64 = if start_index < total { total - start_index } else { 0 };
        let want: u64 = if count < rest { count } else { rest };
        let n: u64 = if want == 0 || file_len < begin {
            0
        } else if len == 0 {
            want
        } else {
            let whole: u64 = (file_len - begin) / len;
            if whole <= start_index {
                0
            } else if whole - start_index < want {
                whole - start_index
            } else {
                want
            }
        };
        assert(n as int == self.readable(start_index as int, count as int)) by {
            reveal(records_in_file);
        }
        let min_len: u64 = if self.header.point_data_format >= 6 { 17 } else { 16 };
        if n == 0 {
            return Ok(Vec::new());
        }
        if len < min_len {
            return Err(ParseError::TruncatedRecord);
        }
        proof {
            reveal(records_in_file);
            let whole = (file_len - begin) as int / len as int;
            assert(start_index + n <= whole);
            assert(whole * len <= file_len - begin) by (nonlinear_arith)
                requires
                    whole == (file_len - begin) as int / len as int,
                    len > 0,
                    file_len - begin >= 0,
            ;
            assert((start_index + n) * len <= whole * len) by (nonlinear_arith)
                requires
                    start_index + n <= whole,
                    len > 0,
            ;
            assert(self.record_start(start_index + n) <= self.file().len());
        }
        let mut points: Vec<PointRecord> = Vec::new();
        let mut i: u64 = 0;
        while i < n
            invariant
                self.wf(),
                i <= n,
                start_index + n <= u64::MAX,
                self.las_header().point_data_record_length >= min_record_len(
                    self.las_header().point_data_format,
                ),
                self.record_start(start_index + n) <= self.file().len(),
                points@.len() == i,
                forall|j: int| 0 <= j < i ==> #[trigger] points@[j] == self.point_at(start_index + j),
                forall|j: int|
                    0 <= j < i ==> coord_ok(points@[j].x as int) && coord_ok(points@[j].y as int)
                        && coord_ok(points@[j].z as int),
            decreases n - i,
        {
            let p = self.point(start_index + i, Ghost((start_index + n) as int));
            points.push(p);
            i = i + 1;
        }
        Ok(points)
    }

    /// The bytes of the file.
    pub fn data(&self) -> (d: &[u8])
        ensures
            d@ == self.file(),
    {
        self.data.as_slice()
    }

    /// The points of an uncompressed file that can be read: those of the
    /// records that the header counts and that lie whole in the file.
    #[verifier::opaque]
    pub open spec fn las_points(&self) -> Seq<PointRecord> {
        Seq::new(
            self.readable(0, self.las_header().number_of_points as int) as nat,
            |i: int| self.point_at(i),
        )
    }

    /// The points of decompressed records, which lie one after the other
    /// in `records`: as many as the header counts.
    pub open spec fn laz_points(&self, records: Seq<u8>) -> Seq<PointRecord> {
        let len = self.las_header().point_data_record_length as int;
        Seq::new(
            self.las_header().number_of_points as nat,
            |i: int| decode_record(records.subrange(i * len, i * len + len), self.las_header()),
        )
    }

    /// Why decompressed records cannot be decoded: the record length is too
    /// short for a point, or there are fewer records than the header
    /// counts.
    pub open spec fn laz_fault(&self, records: Seq<u8>) -> Option<ParseError> {
        let h = self.las_header();
        if h.number_of_points == 0 {
            None
        } else if h.point_data_record_length < min_record_len(h.point_data_format) {
            Some(ParseError::TruncatedRecord)
        } else if records.len() < h.number_of_points * h.point_data_record_length {
            Some(ParseError::LazDecompressError)
        } else {
            None
        }
    }

    /// The size of the batch of an uncompressed file that starts at point
    /// `offset`.
    pub open spec fn las_batch_len(&self, batch_size: u64, offset: int) -> int {
        batch_len(
            self.las_points().len() as int,
            self.las_header().number_of_points as int,
            batch_size as int,
            offset,
        )
    }

    /// Whether the record length is too short for a point.
    pub open spec fn record_too_short(&self) -> bool {
        self.las_header().point_data_record_length < min_record_len(
            self.las_header().point_data_format,
        )
    }

    /// Why an uncompressed file cannot be streamed: its first batch holds
    /// a record, and the record length is too short for a point.
    pub open spec fn las_fault(&self, batch_size: u64) -> Option<ParseError> {
        if self.las_batch_len(batch_size, 0) > 0 && self.record_too_short() {
            Some(ParseError::TruncatedRecord)
        } else {
            None
        }
    }

    /// The points that `stream_points` delivers.
    pub open spec fn stream_source(&self, laz_records: Seq<u8>) -> Seq<PointRecord> {
        if self.compressed() {
            self.laz_points(laz_records)
        } else {
            self.las_points()
        }
    }

    /// Why `stream_points` fails, if it does.
    pub open spec fn stream_fault(&self, batch_size: u64, laz_records: Seq<u8>) -> Option<
        ParseError,
    > {
        if self.compressed() {
            self.laz_fault(laz_records)
        } else {
            self.las_fault(batch_size)
        }
    }

    /// The batches that `stream_points` delivers to a sink that takes them
    /// all.
    pub open spec fn batches(&self, batch_size: u64, laz_records: Seq<u8>) -> Seq<Delivery> {
        batches_of(
            self.stream_source(laz_records),
            self.las_header().number_of_points as int,
            batch_size as int,
            0,
        )
    }

    /// Find the LASzip record among the variable-length records of the
    /// header and return its data.
    pub fn find_laszip_vlr(&self) -> (r: Result<Vec<u8>, ParseError>)
        ensures
            match r {
                Ok(v) => match laszip_range(self.file(), self.las_header()) {
                    Some((a, b)) => v@ == self.file().subrange(a, b),
                    None => false,
                },
                Err(e) => e == ParseError::LazVlrMissing && laszip_range(
                    self.file(),
                    self.las_header(),
                ) is None,
            },
    {
        match find_laszip_range(self.data.as_slice(), &self.header) {
            Some((a, b)) => {
                let part = &self.data.as_slice()[a..b];
                let mut out: Vec<u8> = Vec::new();
                let mut i: usize = 0;
                while i < part.len()
                    invariant
                        i <= part@.len(),
                        out@ == part@.subrange(0, i as int),
                    decreases part@.len() - i,
                {
                    out.push(part[i]);
                    i = i + 1;
                    assert(out@ =~= part@.subrange(0, i as int));
                }
                assert(part@.subrange(0, i as int) =~= part@);
                Ok(out)
            },
            None => Err(ParseError::LazVlrMissing),
        }
    }

    /// Reads the LASzip record of the file with the `laz` crate. Without
    /// such a record the error is `LazVlrMissing`. With one, the reading
    /// succeeds exactly where `laz` can read the record; where it cannot,
    /// the error is `UnsupportedFormat` for a point format that `laz` does
    /// not support and `LazDecompressError` for the rest.
    pub fn read_laszip_vlr(&self) -> (r: Result<laz::LazVlr, ParseError>)
        ensures
            match laszip_range(self.file(), self.las_header()) {
                Some((a, b)) => {
                    &&& r is Ok <==> laz_vlr_reads(self.file().subrange(a, b))
                    &&& r is Err ==> r->Err_0 == ParseError::UnsupportedFormat || r->Err_0
                        == ParseError::LazDecompressError
                },
                None => r is Err && r->Err_0 == ParseError::LazVlrMissing,
            },
    {
        let record = match self.find_laszip_vlr() {
            Ok(v) => v,
            Err(e) => {
                return Err(e);
            },
        };
        match parse_laz_vlr(record.as_slice()) {
            Ok(vlr) => Ok(vlr),
            Err(e) => Err(laz_error(laz_fault(&e))),
        }
    }

    /// Decodes decompressed point records, which lie one after the other in
    /// `records`: as many points as the header counts.
    pub fn decode_laz_points(&self, records: &[u8]) -> (r: Result<Vec<PointRecord>, ParseError>)
        requires
            self.wf(),
        ensures
            match r {
                Ok(v) => v@ == self.laz_points(records@) && self.laz_fault(records@) is None
                    && forall|i: int| 0 <= i < v@.len() ==> (#[trigger] v@[i]).valid(),
                Err(e) => self.laz_fault(records@) == Some(e),
            },
    {
        let total: u64 = self.header.number_of_points;
        let len: usize = self.header.point_data_record_length as usize;
        let min_len: usize = if self.header.point_data_format >= 6 { 17 } else { 16 };
        let mut points: Vec<PointRecord> = Vec::new();
        if total == 0 {
            assert(points@ =~= self.laz_points(records@));
            return Ok(points);
        }
        if len < min_len {
            return Err(ParseError::TruncatedRecord);
        }
        assert(total * len <= 0xffff_ffff_ffff_ffff * 0xffff) by (nonlinear_arith)
            requires
                0 <= total <= 0xffff_ffff_ffff_ffff,
                0 <= len <= 0xffff,
        ;
        if (records.len() as u128) < (total as u128) * (len as u128) {
            return Err(ParseError::LazDecompressError);
        }
        let n: usize = records.len();
        let mut i: u64 = 0;
        while i < total
            invariant
                self.wf(),
                i <= total,
                n == records@.len(),
                total == self.las_header().number_of_points,
                len == self.las_header().point_data_record_length,
                self.header == self.las_header(),
                len >= min_record_len(self.las_header().point_data_format),
                total * len <= records@.len(),
                points@.len() == i,
                forall|j: int|
                    0 <= j < i ==> points@[j] == decode_record(
                        records@.subrange(j * len, j * len + len),
                        self.las_header(),
                    ),
                forall|j: int| 0 <= j < i ==> (#[trigger] points@[j]).valid(),
            decreases total - i,
        {
            assert(i * len + len <= total * len) by (nonlinear_arith)
                requires
                    0 <= i < total,
                    0 <= len,
            ;
            assert(0 <= i * len) by (nonlinear_arith)
                requires
                    0 <= i,
                    0 <= len,
            ;
            let at: usize = ((i as u128) * (len as u128)) as usize;
            let p = decode_point(records, at, &self.header);
            points.push(p);
            i = i + 1;
        }
        assert(points@ =~= self.laz_points(records@));
        Ok(points)
    }

    /// Streams all points to `sink` in batches of `batch_size`, each with
    /// the index of its first point. An uncompressed file is read batch by
    /// batch. For a compressed file, `laz_records` holds the decompressed
    /// point records one after the other (for an uncompressed file it is
    /// not read); they are decoded at once and then handed out. The sink
    /// ends the streaming by answering `false`, and is not called again;
    /// a batch without points ends it too.
    #[verifier::rlimit(40)]
    pub fn stream_points<S: PointSink>(&self, batch_size: u64, laz_records: &[u8], sink: &mut S) -> (r:
        Result<(), ParseError>)
        requires
            self.wf(),
        ensures
            match r {
                Ok(()) => {
                    &&& self.stream_fault(batch_size, laz_records@) is None
                    &&& exists|k: int|
                        #![trigger self.batches(batch_size, laz_records@).take(k)]
                        {
                            &&& 0 <= k <= self.batches(batch_size, laz_records@).len()
                            &&& final(sink).received() == old(sink).received() + self.batches(
                                batch_size,
                                laz_records@,
                            ).take(k)
                            &&& answered(old(sink).answers(), final(sink).answers(), k)
                            &&& (k == self.batches(batch_size, laz_records@).len() || (k > 0
                                && !final(sink).answers().last()))
                        }
                },
                Err(e) => {
                    &&& self.stream_fault(batch_size, laz_records@) == Some(e)
                    &&& final(sink).received() == old(sink).received()
                    &&& final(sink).answers() == old(sink).answers()
                },
            },
    {
        let total: u64 = self.header.number_of_points;
        let ghost all = self.stream_source(laz_records@);
        let ghost full = self.batches(batch_size, laz_records@);
        let ghost mut k: int = 0;
        proof {
            assert(full.take(0) =~= Seq::<Delivery>::empty());
            assert(old(sink).received() + full.take(0) =~= old(sink).received());
            assert(full.skip(0) =~= full);
            assert(old(sink).answers().take(old(sink).answers().len() as int) =~= old(
                sink,
            ).answers());
        }
        if self.is_laz {
            let all_points = match self.decode_laz_points(laz_records) {
                Ok(v) => v,
                Err(e) => {
                    return Err(e);
                },
            };
            let n_all: usize = all_points.len();
            let mut offset: u64 = 0;
            loop
                invariant_except_break
                    full.skip(k) == batches_of(all, total as int, batch_size as int, offset as int),
                    k > 0 ==> sink.answers().last(),
                invariant
                    offset <= total,
                    total == all.len(),
                    all == all_points@,
                    n_all == all_points@.len(),
                    0 <= k <= full.len(),
                    sink.received() == old(sink).received() + full.take(k),
                    answered(old(sink).answers(), sink.answers(), k),
                ensures
                    k == full.len() || (k > 0 && !sink.answers().last()),
                decreases total - offset,
            {
                proof {
                    lemma_batches_step(full, k, all, total as int, batch_size as int, offset as int);
                }
                if offset >= total {
                    break;
                }
                let end: u64 = if batch_size < total - offset {
                    offset + batch_size
                } else {
                    total
                };
                let batch = &all_points.as_slice()[offset as usize..end as usize];
                let ghost answers_before = sink.answers();
                let go_on = sink.accept(batch, offset);
                proof {
                    assert(full.take(k + 1) =~= full.take(k).push(full[k]));
                    assert(sink.received() =~= old(sink).received() + full.take(k + 1));
                    lemma_answered_push(old(sink).answers(), answers_before, k, go_on);
                    k = k + 1;
                }
                if !go_on || end == offset {
                    break;
                }
                offset = end;
            }
            return Ok(());
        }
        let mut offset: u64 = 0;
        loop
            invariant_except_break
                full.skip(k) == batches_of(all, total as int, batch_size as int, offset as int),
                k > 0 ==> sink.answers().last(),
            invariant
                self.wf(),
                !self.compressed(),
                offset <= total,
                total == self.las_header().number_of_points,
                all == self.las_points(),
                offset <= all.len(),
                0 <= k <= full.len(),
                k == 0 ==> offset == 0,
                sink.received() == old(sink).received() + full.take(k),
                k > 0 ==> self.las_fault(batch_size) is None,
                k > 0 && offset > 0 ==> !self.record_too_short(),
                answered(old(sink).answers(), sink.answers(), k),
            ensures
                k == full.len() || (k > 0 && !sink.answers().last()),
                self.las_fault(batch_size) is None,
            decreases total - offset,
        {
            proof {
                lemma_batches_step(full, k, all, total as int, batch_size as int, offset as int);
            }
            if offset >= total {
                break;
            }
            let points = match self.read_batch(offset, batch_size) {
                Ok(v) => v,
                Err(e) => {
                    return Err(e);
                },
            };
            let read_count: u64 = points.len() as u64;
            let ghost answers_before = sink.answers();
            let go_on = sink.accept(points.as_slice(), offset);
            proof {
                assert(full.take(k + 1) =~= full.take(k).push(full[k]));
                assert(sink.received() =~= old(sink).received() + full.take(k + 1));
                lemma_answered_push(old(sink).answers(), answers_before, k, go_on);
                k = k + 1;
            }
            if !go_on || read_count == 0 {
                break;
            }
            offset = offset + read_count;
        }
        Ok(())
    }

    /// Reads the batch of an uncompressed file that starts at point
    /// `offset`.
    #[verifier::rlimit(40)]
    pub fn read_batch(&self, offset: u64, batch_size: u64) -> (r: Result<
        Vec<PointRecord>,
        ParseError,
    >)
        requires
            self.wf(),
            offset < self.las_header().number_of_points,
        ensures
            match r {
                Ok(v) => {
                    &&& v@.len() == self.las_batch_len(batch_size, offset as int)
                    &&& (offset <= self.las_points().len() ==> v@ == self.las_points().subrange(
                        offset as int,
                        offset + self.las_batch_len(batch_size, offset as int),
                    ))
                    &&& offset + v@.len() <= self.las_header().number_of_points
                    &&& (v@.len() > 0 ==> !self.record_too_short())
                    &&& forall|i: int| 0 <= i < v@.len() ==> (#[trigger] v@[i]).valid()
                },
                Err(e) => {
                    &&& e == ParseError::TruncatedRecord
                    &&& self.las_batch_len(batch_size, offset as int) > 0
                    &&& self.record_too_short()
                },
            },
    {
        let total: u64 = self.header.number_of_points;
        let count: u64 = if batch_size < total - offset { batch_size } else { total - offset };
        proof {
            self.lemma_readable_from(offset as int, count as int);
        }
        let ghost n = self.readable(offset as int, count as int);
        let ghost m = self.las_batch_len(batch_size, offset as int);
        assert(n == m);
        let r = self.read_points(offset, count);
        proof {
            if r is Ok && offset <= self.las_points().len() {
                let v = r->Ok_0;
                assert(v@.len() == n);
                assert(offset + v@.len() <= self.las_points().len());
                self.lemma_batch_points(offset as int, v@);
            }
        }
        r
    }

    /// Every point that is streamed lies within the coordinate limit.
    pub proof fn lemma_source_valid(&self, laz_records: Seq<u8>)
        requires
            self.wf(),
        ensures
            forall|i: int|
                0 <= i < self.stream_source(laz_records).len() ==> (#[trigger] self.stream_source(
                    laz_records,
                )[i]).valid(),
            self.stream_source(laz_records).len() <= self.las_header().number_of_points,
    {
        reveal(PointcloudParser::wf);
        reveal(PointcloudParser::las_points);
        reveal(records_in_file);
        let all = self.stream_source(laz_records);
        assert forall|i: int| 0 <= i < all.len() implies (#[trigger] all[i]).valid() by {
            if self.compressed() {
                let len = self.las_header().point_data_record_length as int;
                lemma_decoded_valid(
                    laz_records.subrange(i * len, i * len + len),
                    self.las_header(),
                );
            } else {
                lemma_decoded_valid(self.record_bytes(i), self.las_header());
            }
        }
    }

    /// The points read from `start` on are the points of the file from
    /// `start` on.
    proof fn lemma_batch_points(&self, start: int, points: Seq<PointRecord>)
        requires
            0 <= start,
            start + points.len() <= self.las_points().len(),
            forall|j: int| 0 <= j < points.len() ==> #[trigger] points[j] == self.point_at(start + j),
        ensures
            points == self.las_points().subrange(start, start + points.len()),
    {
        reveal(PointcloudParser::las_points);
        let sub = self.las_points().subrange(start, start + points.len());
        assert forall|j: int| 0 <= j < points.len() implies points[j] == sub[j] by {
            assert(points[j] == self.point_at(start + j));
            assert(self.las_points()[start + j] == self.point_at(start + j));
        }
        assert(points =~= sub);
    }

    /// What can be read from `start` on is what can be read in all, less
    /// `start`, and no more than `count`.
    pub proof fn lemma_readable_from(&self, start: int, count: int)
        requires
            0 <= start <= self.las_header().number_of_points,
            0 <= count <= self.las_header().number_of_points - start,
        ensures
            self.readable(start, count) == batch_len(
                self.readable(0, self.las_header().number_of_points as int),
                self.las_header().number_of_points as int,
                count,
                start,
            ),
            0 <= self.readable(0, self.las_header().number_of_points as int)
                <= self.las_header().number_of_points,
            self.las_points().len() == self.readable(
                0,
                self.las_header().number_of_points as int,
            ),
    {
        reveal(records_in_file);
        reveal(PointcloudParser::las_points);
    }
}

/// The points of a first delivery and of those after it.
pub proof fn lemma_delivered_front(d: Delivery, rest: Seq<Delivery>)
    ensures
        delivered_points(seq![d] + rest) == d.points + delivered_points(rest),
    decreases rest.len(),
{
    let all = seq![d] + rest;
    if rest.len() == 0 {
        assert(all.drop_last() =~= Seq::<Delivery>::empty());
        assert(all.last() == d);
        assert(delivered_points(all.drop_last()) =~= Seq::<PointRecord>::empty());
        assert(delivered_points(all) =~= d.points + delivered_points(rest));
    } else {
        lemma_delivered_front(d, rest.drop_last());
        assert(all.drop_last() =~= seq![d] + rest.drop_last());
        assert(all.last() == rest.last());
        assert(delivered_points(all) =~= d.points + delivered_points(rest));
    }
}

/// Batches of a positive size deliver every point at hand, once and in
/// order, where no more points are at hand than are claimed.
pub proof fn lemma_batches_cover(all: Seq<PointRecord>, claimed: int, batch: int, offset: int)
    requires
        batch > 0,
        0 <= offset <= all.len() <= claimed,
    ensures
        delivered_points(batches_of(all, claimed, batch, offset)) == all.subrange(
            offset,
            all.len() as int,
        ),
    decreases claimed - offset,
{
    let bs = batches_of(all, claimed, batch, offset);
    if offset >= claimed {
        assert(all.subrange(offset, all.len() as int) =~= Seq::<PointRecord>::empty());
    } else {
        let n = batch_len(all.len() as int, claimed, batch, offset);
        let d = Delivery { points: all.subrange(offset, offset + n), start_index: offset };
        if n <= 0 {
            lemma_delivered_front(d, Seq::empty());
            assert(seq![d] + Seq::<Delivery>::empty() =~= seq![d]);
            assert(delivered_points(Seq::<Delivery>::empty()) =~= Seq::<PointRecord>::empty());
            assert(offset == all.len());
            assert(d.points + Seq::<PointRecord>::empty() =~= all.subrange(
                offset,
                all.len() as int,
            ));
        } else {
            lemma_batches_cover(all, claimed, batch, offset + n);
            lemma_delivered_front(d, batches_of(all, claimed, batch, offset + n));
            assert(d.points + all.subrange(offset + n, all.len() as int) =~= all.subrange(
                offset,
                all.len() as int,
            ));
        }
    }
}

/// How many batches there are, for a batch size above zero: no more than
/// it takes to hold the points at hand, and one more, the empty batch,
/// where fewer points are at hand than are claimed. With `n` batches,
/// `n * batch < at_hand - offset + batch` where all points are at hand.
pub proof fn lemma_batches_count(all: Seq<PointRecord>, claimed: int, batch: int, offset: int)
    requires
        batch > 0,
        0 <= offset <= all.len() <= claimed,
    ensures
        (batches_of(all, claimed, batch, offset).len() as int) * batch < (all.len() - offset) + 2
            * batch,
        all.len() == claimed ==> (batches_of(all, claimed, batch, offset).len() as int) * batch
            < (claimed - offset) + batch,
    decreases claimed - offset,
{
    let n = batches_of(all, claimed, batch, offset).len() as int;
    let left = all.len() - offset;
    if offset < claimed {
        let b = batch_len(all.len() as int, claimed, batch, offset);
        if b > 0 {
            let rest = batches_of(all, claimed, batch, offset + b);
            let m = rest.len() as int;
            lemma_batches_count(all, claimed, batch, offset + b);
            assert(n == 1 + m);
            assert(n * batch == m * batch + batch) by (nonlinear_arith)
                requires
                    n == 1 + m,
            ;
            if b < batch {
                if offset + b == claimed {
                    assert(m == 0);
                } else {
                    assert(offset + b == all.len());
                    assert(batch_len(all.len() as int, claimed, batch, offset + b) == 0);
                    assert(m == 1);
                }
                assert(m * batch <= batch && (m == 0 ==> m * batch == 0)) by (nonlinear_arith)
                    requires
                        0 <= m <= 1,
                        batch > 0,
                ;
                assert(n * batch < left + 2 * batch);
                if all.len() == claimed {
                    assert(m == 0);
                    assert(n * batch < left + batch);
                }
            } else {
                assert(b == batch);
                assert(m * batch < (left - b) + 2 * batch);
                assert(n * batch < left + 2 * batch);
            }
        } else {
            assert(n == 1);
            assert(all.len() < claimed);
            assert(n * batch == batch) by (nonlinear_arith)
                requires
                    n == 1,
            ;
        }
    } else {
        assert(n == 0);
        assert(n * batch == 0) by (nonlinear_arith)
            requires
                n == 0,
        ;
    }
}

/// One answer more, after answers that all asked for more.
proof fn lemma_answered_push(before: Seq<bool>, now: Seq<bool>, k: int, answer: bool)
    requires
        0 <= k,
        answered(before, now, k),
        k > 0 ==> now.last(),
    ensures
        answered(before, now.push(answer), k + 1),
        now.push(answer).last() == answer,
{
    let after = now.push(answer);
    assert(after.take(before.len() as int) =~= now.take(before.len() as int));
    assert forall|i: int| before.len() <= i < after.len() - 1 implies #[trigger] after[i] by {
        assert(after[i] == now[i]);
        if i == now.len() - 1 {
            assert(now.last() == now[i]);
        }
    }
}

/// One step along the batches: where points are left to deliver, the
/// next batch is the one at `offset`, and the batches after it are those
/// from the end of it on, or none if it is empty.
proof fn lemma_batches_step(
    full: Seq<Delivery>,
    k: int,
    all: Seq<PointRecord>,
    claimed: int,
    batch: int,
    offset: int,
)
    requires
        0 <= k <= full.len(),
        0 <= offset,
        full.skip(k) == batches_of(all, claimed, batch, offset),
    ensures
        offset >= claimed ==> k == full.len(),
        offset < claimed ==> {
            let n = batch_len(all.len() as int, claimed, batch, offset);
            &&& k < full.len()
            &&& full[k] == Delivery {
                points: all.subrange(offset, offset + n),
                start_index: offset,
            }
            &&& (n <= 0 ==> k + 1 == full.len())
            &&& (n > 0 ==> full.skip(k + 1) == batches_of(all, claimed, batch, offset + n))
        },
{
    let rest = batches_of(all, claimed, batch, offset);
    assert(full.len() - k == rest.len());
    if offset < claimed {
        let n = batch_len(all.len() as int, claimed, batch, offset);
        assert(full[k] == full.skip(k)[0]);
        assert(full.skip(k + 1) =~= full.skip(k).skip(1));
        if n > 0 {
            assert(rest.skip(1) =~= batches_of(all, claimed, batch, offset + n));
        }
    }
}

/// The error that a fault of the `laz` crate is reported as.
pub fn laz_error(fault: LazFault) -> (e: ParseError)
    ensures
        e == (if fault == LazFault::UnsupportedPointFormat {
            ParseError::UnsupportedFormat
        } else {
            ParseError::LazDecompressError
        }),
{
    match fault {
        LazFault::UnsupportedPointFormat => ParseError::UnsupportedFormat,
        _ => ParseError::LazDecompressError,
    }
}

} // verus!
