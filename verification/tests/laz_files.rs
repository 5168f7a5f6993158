use std::io::Cursor;
use std::io::Seek;
use std::io::SeekFrom;

use pointcloud::laszip::find_laszip_range;
use pointcloud::manager::PointcloudManager;
use pointcloud::parser::laz_error;
use pointcloud::parser::ParseError;
use pointcloud::parser::PointcloudParser;
use pointcloud::laszip::LazFault;

fn header(minor: u8, format: u8, record_length: u16, count: u32, offset_to_points: u32, num_vlrs: u32) -> Vec<u8> {
    let mut b = vec![0u8; if minor >= 3 { 235 } else { 227 }];
    b[0..4].copy_from_slice(b"LASF");
    b[24] = 1;
    b[25] = minor;
    b[96..100].copy_from_slice(&offset_to_points.to_le_bytes());
    b[100..104].copy_from_slice(&num_vlrs.to_le_bytes());
    b[104] = format;
    b[105..107].copy_from_slice(&record_length.to_le_bytes());
    b[107..111].copy_from_slice(&count.to_le_bytes());
    for k in 0..3 {
        b[131 + 8 * k..139 + 8 * k].copy_from_slice(&0.001f64.to_le_bytes());
        b[155 + 8 * k..163 + 8 * k].copy_from_slice(&0.0f64.to_le_bytes());
        b[179 + 16 * k..187 + 16 * k].copy_from_slice(&100.0f64.to_le_bytes());
        b[187 + 16 * k..195 + 16 * k].copy_from_slice(&(-100.0f64).to_le_bytes());
    }
    b
}

fn vlr(user_id: &str, record_id: u16, data: &[u8]) -> Vec<u8> {
    let mut b = vec![0u8; 54];
    b[2..2 + user_id.len()].copy_from_slice(user_id.as_bytes());
    b[18..20].copy_from_slice(&record_id.to_le_bytes());
    b[20..22].copy_from_slice(&(data.len() as u16).to_le_bytes());
    b.extend_from_slice(data);
    b
}

fn file_with(minor: u8, vlrs: &[Vec<u8>], claimed: u32, points: &[u8]) -> Vec<u8> {
    let start = if minor >= 3 { 235 } else { 227 };
    let vlr_len: usize = vlrs.iter().map(|v| v.len()).sum();
    let mut b = header(minor, 0, 20, 0, (start + vlr_len) as u32, claimed);
    for v in vlrs {
        b.extend_from_slice(v);
    }
    b.extend_from_slice(points);
    b
}

fn range_of(bytes: &[u8]) -> Option<(usize, usize)> {
    let h = pointcloud::header::parse_las_header(bytes).unwrap();
    find_laszip_range(bytes, &h)
}

#[test]
fn the_laszip_record_is_found_among_the_records() {
    let other = vlr("LASF_Projection", 34735, &[1, 2, 3, 4, 5]);
    let zip = vlr("laszip encoded", 22204, &[9, 8, 7]);
    let bytes = file_with(2, &[other.clone(), zip.clone()], 2, &[]);
    assert_eq!(range_of(&bytes), Some((227 + 59 + 54, 227 + 59 + 57)));
    let parser = PointcloudParser::with_format(bytes, true).unwrap();
    assert_eq!(parser.find_laszip_vlr().unwrap(), vec![9, 8, 7]);
    // version 1.3 has a longer fixed header
    let bytes = file_with(3, &[zip.clone()], 1, &[]);
    assert_eq!(range_of(&bytes), Some((235 + 54, 235 + 57)));
    // the user id need only begin with the name
    let longer = vlr("laszip encoded!", 22204, &[1]);
    assert!(range_of(&file_with(2, &[longer], 1, &[])).is_some());
}

#[test]
fn the_laszip_record_is_missed() {
    let zip = vlr("laszip encoded", 22204, &[9, 8, 7]);
    let other = vlr("other", 1, &[]);
    // no records at all
    assert_eq!(range_of(&file_with(2, &[], 0, &[])), None);
    // the header counts fewer records than would reach it
    assert_eq!(range_of(&file_with(2, &[other.clone(), zip.clone()], 1, &[])), None);
    // another record id, another user id
    assert_eq!(range_of(&file_with(2, &[vlr("laszip encoded", 22205, &[1])], 1, &[])), None);
    assert_eq!(range_of(&file_with(2, &[vlr("Laszip encoded", 22204, &[1])], 1, &[])), None);
    assert_eq!(range_of(&file_with(2, &[vlr("laszip encode", 22204, &[1])], 1, &[])), None);
    // a record header that passes the start of the point data
    let mut bytes = file_with(2, &[zip.clone()], 1, &[]);
    bytes[96..100].copy_from_slice(&(227u32 + 53).to_le_bytes());
    assert_eq!(range_of(&bytes), None);
    // record data that passes the end of the file
    let mut bytes = file_with(2, &[zip.clone()], 1, &[]);
    bytes.truncate(bytes.len() - 1);
    assert_eq!(range_of(&bytes), None);
    // a file that ends within the record header
    let mut bytes = file_with(2, &[zip.clone()], 1, &[]);
    bytes.truncate(227 + 30);
    assert_eq!(range_of(&bytes), None);
    let parser = PointcloudParser::with_format(file_with(2, &[other], 1, &[]), true).unwrap();
    assert_eq!(parser.find_laszip_vlr().unwrap_err(), ParseError::LazVlrMissing);
    assert_eq!(parser.read_laszip_vlr().err(), Some(ParseError::LazVlrMissing));
}

#[test]
fn faults_of_the_decompressor_as_errors() {
    assert_eq!(laz_error(LazFault::UnsupportedPointFormat), ParseError::UnsupportedFormat);
    for fault in [
        LazFault::UnknownLazItem,
        LazFault::UnsupportedLazItemVersion,
        LazFault::UnknownCompressorType,
        LazFault::UnsupportedCompressorType,
        LazFault::IoError,
        LazFault::MissingChunkTable,
        LazFault::Other,
    ] {
        assert_eq!(laz_error(fault), ParseError::LazDecompressError);
    }
}

#[test]
fn a_record_that_laz_refuses() {
    // a compressor type that does not exist
    let zip = vlr("laszip encoded", 22204, &[0xff; 40]);
    let parser = PointcloudParser::with_format(file_with(2, &[zip], 1, &[]), true).unwrap();
    assert_eq!(parser.read_laszip_vlr().err(), Some(ParseError::LazDecompressError));
    // a record that ends too early
    let zip = vlr("laszip encoded", 22204, &[2, 0, 0]);
    let parser = PointcloudParser::with_format(file_with(2, &[zip], 1, &[]), true).unwrap();
    assert_eq!(parser.read_laszip_vlr().err(), Some(ParseError::LazDecompressError));
}

/// A compressed file of `n` points of format 0, and its plain records.
fn compressed_file(n: u32) -> (Vec<u8>, Vec<u8>) {
    let mut records = Vec::new();
    for i in 0..n as i32 {
        let mut r = vec![0u8; 20];
        r[0..4].copy_from_slice(&(i * 37 - 500).to_le_bytes());
        r[4..8].copy_from_slice(&(i * i).to_le_bytes());
        r[8..12].copy_from_slice(&(1000 - i).to_le_bytes());
        r[12..14].copy_from_slice(&((i * 3) as u16).to_le_bytes());
        r[15] = (i % 7) as u8;
        records.extend_from_slice(&r);
    }
    let items = laz::LazItemRecordBuilder::default_for_point_format_id(0, 0).unwrap();
    let laz_vlr = laz::LazVlr::from_laz_items(items);
    let mut vlr_data = Vec::new();
    laz_vlr.write_to(&mut vlr_data).unwrap();
    let record = vlr("laszip encoded", 22204, &vlr_data);
    let offset_to_points = 227 + record.len();
    let mut file = header(2, 0, 20, n, offset_to_points as u32, 1);
    file.extend_from_slice(&record);
    let mut out = Cursor::new(file);
    out.seek(SeekFrom::Start(offset_to_points as u64)).unwrap();
    let mut compressor = laz::LasZipCompressor::new(out, laz_vlr).unwrap();
    compressor.compress_many(&records).unwrap();
    compressor.done().unwrap();
    (compressor.into_inner().into_inner(), records)
}

fn decompress(parser: &PointcloudParser) -> Vec<u8> {
    let vlr = parser.read_laszip_vlr().unwrap();
    let h = parser.header();
    let mut source = Cursor::new(parser.data());
    source.seek(SeekFrom::Start(h.offset_to_points as u64)).unwrap();
    let mut decompressor = laz::LasZipDecompressor::new(source, vlr).unwrap();
    let mut out = vec![0u8; h.number_of_points as usize * h.point_data_record_length as usize];
    decompressor.decompress_many(&mut out).unwrap();
    out
}

#[test]
fn a_compressed_file_gives_its_points() {
    let (file, records) = compressed_file(300);
    assert!(file.len() < 227 + 54 + 60 + records.len());
    let parser = PointcloudParser::open("scan.laz", file).unwrap();
    assert!(parser.is_laz());
    assert_eq!(parser.total_points(), 300);
    let decompressed = decompress(&parser);
    assert_eq!(decompressed, records);
    let points = parser.decode_laz_points(&decompressed).unwrap();
    assert_eq!(points.len(), 300);
    for (i, p) in points.iter().enumerate() {
        let i = i as i64;
        assert_eq!(p.x, (i * 37 - 500) * 1000);
        assert_eq!(p.y, i * i * 1000);
        assert_eq!(p.z, (1000 - i) * 1000);
        assert_eq!(p.intensity as i64, i * 3);
        assert_eq!(p.classification as i64, i % 7);
        assert_eq!((p.r, p.g, p.b), (128, 128, 128));
    }
    let mut manager = PointcloudManager::new();
    let (meta, parser) = manager.open("scan.laz", parser.data().to_vec()).unwrap();
    assert_eq!(meta.format, "LAZ");
    manager.build_octree(&meta.id, &parser, &decompressed).unwrap();
    let chunks = manager.get_nodes(&meta.id, &vec![String::from("r")]).unwrap();
    assert_eq!(chunks.len(), 1);
    assert_eq!(chunks[0].point_count, 300);
    assert_eq!(chunks[0].intensities[299], 897);
    // without the decompressed records the build fails
    let (other, parser) = manager.open("scan.laz", parser.data().to_vec()).unwrap();
    assert_eq!(manager.build_octree(&other.id, &parser, &[]), Err(ParseError::LazDecompressError));
}

/// Whether the library reads a LASzip record with this data.
fn reads(data: &[u8]) -> bool {
    let zip = vlr("laszip encoded", 22204, data);
    let parser = PointcloudParser::with_format(file_with(2, &[zip], 1, &[]), true).unwrap();
    match parser.read_laszip_vlr() {
        Ok(_) => true,
        Err(e) => {
            assert_eq!(e, ParseError::LazDecompressError);
            false
        }
    }
}

#[test]
fn a_record_is_read_where_its_fields_are_there() {
    let items = laz::LazItemRecordBuilder::default_for_point_format_id(3, 2).unwrap();
    let mut good = Vec::new();
    laz::LazVlr::from_laz_items(items).write_to(&mut good).unwrap();
    // point, time, colour and extra bytes: four items
    assert_eq!(good.len(), 34 + 4 * 6);
    assert_eq!(&good[32..34], &[4, 0]);
    assert!(reads(&good));
    // bytes after the items are not looked at
    let mut longer = good.clone();
    longer.extend_from_slice(&[0xff; 9]);
    assert!(reads(&longer));
    // the bytes end within the last item
    assert!(!reads(&good[..good.len() - 1]));
    assert!(!reads(&good[..33]));
    assert!(!reads(&[]));
    // a compressor type above 3
    for (kind, ok) in [(0u8, true), (1, true), (3, true), (4, false)] {
        let mut other = good.clone();
        other[0] = kind;
        assert_eq!(reads(&other), ok);
    }
    let mut other = good.clone();
    other[1] = 1;
    assert!(!reads(&other));
    // the type of an item: 0 and 6 to 14 are known
    for code in 0..=16u8 {
        let mut other = good.clone();
        other[34 + 6 * 2] = code;
        assert_eq!(reads(&other), code == 0 || (6..=14).contains(&code));
    }
    let mut other = good.clone();
    other[34 + 6 * 3 + 1] = 1;
    assert!(!reads(&other));
    // a count of more items than there are
    let mut other = good.clone();
    other[32] = 5;
    assert!(!reads(&other));
    // no items at all
    assert!(reads(&[0u8; 34]));
    // size and version of an item are not looked at
    let mut other = good.clone();
    other[34 + 2] = 0xee;
    other[34 + 4] = 0xee;
    assert!(reads(&other));
}
