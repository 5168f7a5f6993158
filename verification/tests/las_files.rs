use pointcloud::header::parse_las_header;
use pointcloud::header::HeaderFault;
use pointcloud::manager::ManagerError;
use pointcloud::manager::PointCollector;
use pointcloud::manager::PointcloudManager;
use pointcloud::parser::color_byte_offset;
use pointcloud::parser::extension_is_laz;
use pointcloud::parser::ParseError;
use pointcloud::parser::PointSink;
use pointcloud::parser::PointcloudParser;
use pointcloud::types::PointRecord;

/// What a synthesised file holds.
struct Plan {
    minor: u8,
    format: u8,
    record_length: u16,
    scale: [f64; 3],
    offset: [f64; 3],
    min: [f64; 3],
    max: [f64; 3],
    count: u64,
    records: Vec<Vec<u8>>,
}

fn plan(minor: u8, format: u8, record_length: u16) -> Plan {
    Plan {
        minor,
        format,
        record_length,
        scale: [0.01, 0.01, 0.01],
        offset: [1000.0, 2000.0, 300.0],
        min: [1000.0, 2000.0, 300.0],
        max: [1000.02, 2000.02, 300.02],
        count: 0,
        records: Vec::new(),
    }
}

fn header_len(minor: u8) -> usize {
    if minor >= 4 {
        375
    } else if minor == 3 {
        235
    } else {
        227
    }
}

fn write_header(p: &Plan, offset_to_points: u32, num_vlrs: u32) -> Vec<u8> {
    let mut b = vec![0u8; header_len(p.minor)];
    b[0..4].copy_from_slice(b"LASF");
    b[24] = 1;
    b[25] = p.minor;
    b[96..100].copy_from_slice(&offset_to_points.to_le_bytes());
    b[100..104].copy_from_slice(&num_vlrs.to_le_bytes());
    b[104] = p.format;
    b[105..107].copy_from_slice(&p.record_length.to_le_bytes());
    let legacy: u32 = if p.count <= u32::MAX as u64 { p.count as u32 } else { 0 };
    b[107..111].copy_from_slice(&legacy.to_le_bytes());
    for k in 0..3 {
        b[131 + 8 * k..139 + 8 * k].copy_from_slice(&p.scale[k].to_le_bytes());
        b[155 + 8 * k..163 + 8 * k].copy_from_slice(&p.offset[k].to_le_bytes());
        b[179 + 16 * k..187 + 16 * k].copy_from_slice(&p.max[k].to_le_bytes());
        b[187 + 16 * k..195 + 16 * k].copy_from_slice(&p.min[k].to_le_bytes());
    }
    if p.minor >= 4 {
        b[247..255].copy_from_slice(&p.count.to_le_bytes());
    }
    b
}

fn las_bytes(p: &Plan) -> Vec<u8> {
    let start = header_len(p.minor) as u32;
    let mut b = write_header(p, start, 0);
    for r in &p.records {
        b.extend_from_slice(r);
    }
    b
}

fn record(len: usize, xyz: (i32, i32, i32), intensity: u16) -> Vec<u8> {
    let mut r = vec![0u8; len];
    r[0..4].copy_from_slice(&xyz.0.to_le_bytes());
    r[4..8].copy_from_slice(&xyz.1.to_le_bytes());
    r[8..12].copy_from_slice(&xyz.2.to_le_bytes());
    r[12..14].copy_from_slice(&intensity.to_le_bytes());
    r
}

fn three_points() -> Plan {
    let mut p = plan(2, 0, 20);
    p.count = 3;
    for (i, intensity) in [100u16, 200, 300].iter().enumerate() {
        let v = i as i32;
        let mut r = record(20, (v, v, v), *intensity);
        r[15] = 2;
        p.records.push(r);
    }
    p
}

#[test]
fn header_yields_the_planted_values() {
    let mut p = plan(2, 3, 34);
    p.scale = [0.001, 0.01, 0.1];
    p.offset = [-5.5, 0.0, 123456.789];
    p.min = [-1.0, -2.0, -3.0];
    p.max = [1.5, 2.5, 3.5];
    p.count = 77;
    let bytes = write_header(&p, 1234, 5);
    let h = parse_las_header(&bytes).unwrap();
    assert_eq!(h.version_major, 1);
    assert_eq!(h.version_minor, 2);
    assert_eq!(h.point_data_format, 3);
    assert_eq!(h.point_data_record_length, 34);
    assert_eq!(h.number_of_points, 77);
    assert_eq!(h.offset_to_points, 1234);
    assert_eq!(h.num_vlrs, 5);
    for k in 0..3 {
        assert_eq!(h.scale[k], p.scale[k].to_bits());
        assert_eq!(h.offset[k], p.offset[k].to_bits());
        assert_eq!(h.min[k], p.min[k].to_bits());
        assert_eq!(h.max[k], p.max[k].to_bits());
    }
    assert!(h.has_color);
    assert!(h.has_gps_time);
}

#[test]
fn header_of_version_1_4_counts_in_64_bits() {
    let mut p = plan(4, 6, 30);
    p.count = 0x1_0000_0005;
    let bytes = write_header(&p, 375, 0);
    let h = parse_las_header(&bytes).unwrap();
    assert_eq!(h.number_of_points, 0x1_0000_0005);
    assert!(!h.has_color);
    assert!(h.has_gps_time);
    // A file of version 1.4 that ends before byte 255 falls back to the
    // 32-bit count.
    let mut short = bytes[..254].to_vec();
    short[107..111].copy_from_slice(&9u32.to_le_bytes());
    assert_eq!(parse_las_header(&short).unwrap().number_of_points, 9);
}

#[test]
fn header_flags_follow_the_point_format() {
    let colored = [2u8, 3, 5, 7, 8, 10];
    let timed = [1u8, 3, 4, 5, 6, 7, 8, 9, 10];
    for format in 0..=12u8 {
        let p = plan(2, format, 40);
        let h = parse_las_header(&write_header(&p, 227, 0)).unwrap();
        assert_eq!(h.has_color, colored.contains(&format));
        assert_eq!(h.has_gps_time, timed.contains(&format));
    }
}

#[test]
fn header_checks_fail_in_order() {
    let good = write_header(&plan(2, 0, 20), 227, 0);
    assert_eq!(parse_las_header(&good[..226]).unwrap_err(), HeaderFault::TooShort);
    assert_eq!(parse_las_header(&[]).unwrap_err(), HeaderFault::TooShort);
    let mut bad = good.clone();
    bad[3] = b'X';
    assert_eq!(parse_las_header(&bad).unwrap_err(), HeaderFault::BadSignature);
    let mut bad = good.clone();
    bad[24] = 2;
    assert_eq!(parse_las_header(&bad).unwrap_err(), HeaderFault::UnsupportedVersion { major: 2, minor: 2 });
    let mut bad = good.clone();
    bad[25] = 5;
    assert_eq!(parse_las_header(&bad).unwrap_err(), HeaderFault::UnsupportedVersion { major: 1, minor: 5 });
    let mut bad = good.clone();
    bad[0] = 0;
    bad[24] = 9;
    assert_eq!(parse_las_header(&bad).unwrap_err(), HeaderFault::BadSignature);
    assert!(parse_las_header(&good).is_ok());
}

#[test]
fn minimal_las_1_2_format_0_three_points() {
    let parser = PointcloudParser::open("cloud.las", las_bytes(&three_points())).unwrap();
    assert!(!parser.is_laz());
    assert_eq!(parser.total_points(), 3);
    let points = parser.read_points(0, 3).unwrap();
    assert_eq!(points.len(), 3);
    let expected = [
        (1_000_000_000i64, 2_000_000_000i64, 300_000_000i64, 100u16),
        (1_000_010_000, 2_000_010_000, 300_010_000, 200),
        (1_000_020_000, 2_000_020_000, 300_020_000, 300),
    ];
    for (p, e) in points.iter().zip(expected.iter()) {
        assert_eq!((p.x, p.y, p.z, p.intensity), *e);
        assert_eq!((p.r, p.g, p.b), (128, 128, 128));
        assert_eq!(p.classification, 2);
    }
    let b = parser.bounds();
    assert_eq!((b.min_x, b.min_y, b.min_z), (1_000_000_000, 2_000_000_000, 300_000_000));
    assert_eq!((b.max_x, b.max_y, b.max_z), (1_000_020_000, 2_000_020_000, 300_020_000));
    for p in &points {
        assert!(b.contains(p.x, p.y, p.z));
    }
}

#[test]
fn las_1_4_format_7_one_point_with_rgb() {
    let mut p = plan(4, 7, 36);
    p.count = 1;
    let mut r = record(36, (5, 6, 7), 9);
    r[16] = 4;
    r[30..32].copy_from_slice(&0x4000u16.to_le_bytes());
    r[32..34].copy_from_slice(&0x8000u16.to_le_bytes());
    r[34..36].copy_from_slice(&0xC000u16.to_le_bytes());
    p.records.push(r);
    let parser = PointcloudParser::open("a.las", las_bytes(&p)).unwrap();
    assert_eq!(parser.total_points(), 1);
    let points = parser.read_points(0, 10).unwrap();
    assert_eq!(points.len(), 1);
    assert_eq!((points[0].r, points[0].g, points[0].b), (64, 128, 192));
    assert_eq!(points[0].classification, 4);
    assert_eq!(points[0].x, 1_000_050_000);
}

#[test]
fn colour_offsets_by_format() {
    let expected = [0usize, 0, 20, 28, 0, 28, 0, 30, 30, 0, 30, 0];
    for (format, want) in expected.iter().enumerate() {
        assert_eq!(color_byte_offset(format as u8), *want);
    }
}

#[test]
fn colour_needs_room_in_the_record() {
    // Format 2 has its colour at byte 20; a record of 26 bytes holds it
    // only if 20 + 5 < 26.
    for (len, want) in [(26u16, (1u8, 2u8, 3u8)), (25, (128, 128, 128))] {
        let mut p = plan(2, 2, len);
        p.count = 1;
        let mut r = record(26, (0, 0, 0), 0);
        r[20..22].copy_from_slice(&0x0100u16.to_le_bytes());
        r[22..24].copy_from_slice(&0x02ffu16.to_le_bytes());
        r[24..26].copy_from_slice(&0x0300u16.to_le_bytes());
        r.truncate(len as usize);
        p.records.push(r);
        let parser = PointcloudParser::open("a.las", las_bytes(&p)).unwrap();
        let points = parser.read_points(0, 1).unwrap();
        assert_eq!((points[0].r, points[0].g, points[0].b), want);
    }
}

#[test]
fn reading_stops_at_the_count_and_at_the_end_of_the_file() {
    let mut p = three_points();
    p.count = 5;
    let mut bytes = las_bytes(&p);
    // three whole records and half of a fourth
    bytes.extend_from_slice(&[0u8; 10]);
    let parser = PointcloudParser::open("a.las", bytes).unwrap();
    assert_eq!(parser.total_points(), 5);
    assert_eq!(parser.read_points(0, 5).unwrap().len(), 3);
    assert_eq!(parser.read_points(0, 2).unwrap().len(), 2);
    assert_eq!(parser.read_points(1, 100).unwrap().len(), 2);
    assert_eq!(parser.read_points(2, 1).unwrap()[0].intensity, 300);
    assert_eq!(parser.read_points(3, 1).unwrap().len(), 0);
    assert_eq!(parser.read_points(7, 1).unwrap().len(), 0);
    assert_eq!(parser.read_points(0, 0).unwrap().len(), 0);
    assert_eq!(parser.read_points(u64::MAX, u64::MAX).unwrap().len(), 0);
}

#[test]
fn record_too_short_for_a_point() {
    let mut p = plan(2, 0, 15);
    p.count = 1;
    p.records.push(vec![0u8; 15]);
    let parser = PointcloudParser::open("a.las", las_bytes(&p)).unwrap();
    assert_eq!(parser.read_points(0, 1).unwrap_err(), ParseError::TruncatedRecord);
    assert_eq!(parser.read_points(0, 0).unwrap().len(), 0);
    // format 6 keeps its classification one byte further on
    let mut p = plan(4, 6, 16);
    p.count = 1;
    p.records.push(vec![0u8; 16]);
    let parser = PointcloudParser::open("a.las", las_bytes(&p)).unwrap();
    assert_eq!(parser.read_points(0, 1).unwrap_err(), ParseError::TruncatedRecord);
}

#[test]
fn open_refuses_only_a_faulty_header() {
    assert_eq!(
        PointcloudParser::open("a.las", vec![1, 2, 3]).err(),
        Some(ParseError::InvalidHeader(HeaderFault::TooShort))
    );
    assert!(PointcloudParser::open("a.las", las_bytes(&three_points())).is_ok());
    // whatever the doubles of the header are, the file is opened
    for odd in [f64::NAN, f64::INFINITY, f64::NEG_INFINITY, f64::MAX, f64::MIN, 1.0e300, -0.0] {
        for k in 0..3 {
            let mut p = three_points();
            p.scale[k] = odd;
            assert!(PointcloudParser::open("a.las", las_bytes(&p)).is_ok());
            let mut p = three_points();
            p.offset[k] = odd;
            assert!(PointcloudParser::open("a.las", las_bytes(&p)).is_ok());
            let mut p = three_points();
            p.min[k] = odd;
            p.max[2 - k] = odd;
            let parser = PointcloudParser::open("a.las", las_bytes(&p)).unwrap();
            assert!(parser.bounds().is_in_limits());
            for point in parser.read_points(0, 3).unwrap() {
                assert!(point.is_valid());
            }
        }
    }
}

#[test]
fn doubles_beyond_the_range_are_held_at_its_ends() {
    const LIMIT: i64 = 1 << 53;
    // a scale that is not a number counts as zero
    let mut p = three_points();
    p.scale[1] = f64::NAN;
    let parser = PointcloudParser::open("a.las", las_bytes(&p)).unwrap();
    let points = parser.read_points(0, 3).unwrap();
    assert_eq!((points[2].x, points[2].y, points[2].z), (1_000_020_000, 2_000_000_000, 300_020_000));
    // an infinite offset stands at the end of the range
    let mut p = three_points();
    p.offset[2] = f64::INFINITY;
    p.offset[0] = f64::NEG_INFINITY;
    let parser = PointcloudParser::open("a.las", las_bytes(&p)).unwrap();
    let points = parser.read_points(0, 3).unwrap();
    assert_eq!((points[1].x, points[1].y, points[1].z), (-LIMIT + 10_000, 2_000_010_000, LIMIT));
    // bounds beyond the range, and a lower bound above the upper
    let mut p = three_points();
    p.max[0] = 1.0e300;
    p.min[1] = -1.0e10;
    p.min[2] = 5000.0;
    p.max[1] = f64::NAN;
    let parser = PointcloudParser::open("a.las", las_bytes(&p)).unwrap();
    let b = parser.bounds();
    assert_eq!((b.min_x, b.max_x), (1_000_000_000, LIMIT));
    assert_eq!((b.min_y, b.max_y), (-LIMIT, 0));
    assert_eq!((b.min_z, b.max_z), (5_000_000_000, 300_020_000));
    assert!(b.is_in_limits());
    assert!(!b.is_valid());
    // a large scale: the far lattice points stand at the end of the range
    let mut p = three_points();
    p.scale[0] = 10.0;
    p.records[1][0..4].copy_from_slice(&i32::MAX.to_le_bytes());
    p.records[2][0..4].copy_from_slice(&i32::MIN.to_le_bytes());
    let parser = PointcloudParser::open("a.las", las_bytes(&p)).unwrap();
    let points = parser.read_points(0, 3).unwrap();
    assert_eq!(points[0].x, 1_000_000_000);
    assert_eq!(points[1].x, LIMIT);
    // the product is held at the end of the range, and the offset added
    assert_eq!(points[2].x, -LIMIT + 1_000_000_000);
    let mut p = three_points();
    p.scale[0] = 4.0;
    p.records[1][0..4].copy_from_slice(&i32::MAX.to_le_bytes());
    let parser = PointcloudParser::open("a.las", las_bytes(&p)).unwrap();
    assert_eq!(parser.read_points(0, 3).unwrap()[1].x, 8_589_934_588_000_000 + 1_000_000_000);
}

#[test]
fn a_box_with_its_bounds_crossed_still_indexes() {
    let mut p = seven_points();
    p.min = [10.0, 20.0, 30.0];
    p.max = [-10.0, 20.0, 31.0];
    let mut m = PointcloudManager::new();
    let (meta, parser) = m.open("a.las", las_bytes(&p)).unwrap();
    assert_eq!(meta.bounds.min_x, 10_000_000);
    assert_eq!(meta.bounds.max_x, -10_000_000);
    m.build_octree(&meta.id, &parser, &[]).unwrap();
    let chunks = m.get_nodes(&meta.id, &vec![String::from("r")]).unwrap();
    assert_eq!(chunks[0].point_count, 7);
    assert_eq!(chunks[0].center, [0, 20_000_000, 30_500_000]);
    // sides of -20, 0 and 1: the two longest span no area
    assert_eq!(chunks[0].spacing, 0);
}

#[test]
fn extension_selects_the_compressed_path() {
    assert!(extension_is_laz("laz"));
    assert!(extension_is_laz("LAZ"));
    assert!(extension_is_laz("lAz"));
    assert!(!extension_is_laz("las"));
    assert!(!extension_is_laz("lazz"));
    assert!(!extension_is_laz(""));
    assert!(!extension_is_laz("la"));
    let bytes = las_bytes(&three_points());
    assert!(PointcloudParser::open("scan.LaZ", bytes.clone()).unwrap().is_laz());
    assert!(!PointcloudParser::open("scan.las", bytes.clone()).unwrap().is_laz());
    assert!(!PointcloudParser::open("laz", bytes.clone()).unwrap().is_laz());
    assert!(PointcloudParser::with_format(bytes.clone(), true).unwrap().is_laz());
    assert!(!PointcloudParser::with_format(bytes, false).unwrap().is_laz());
}

#[test]
fn metadata_of_a_file() {
    let parser = PointcloudParser::open("dir/cloud.las", las_bytes(&three_points())).unwrap();
    let m = parser.metadata("pc_7", "dir/cloud.las");
    assert_eq!(m.id, "pc_7");
    assert_eq!(m.file_path, "dir/cloud.las");
    assert_eq!(m.file_name, "cloud.las");
    assert_eq!(m.format, "LAS");
    assert_eq!(m.total_points, 3);
    assert_eq!(m.bounds, parser.bounds());
    assert!(!m.has_color);
    assert!(m.has_intensity);
    assert!(m.has_classification);
    assert_eq!(m.point_record_format, 0);
    assert_eq!(m.las_version, "1.2");
    let unnamed = parser.metadata_named("x", "..", None);
    assert_eq!(unnamed.file_name, "unknown");
    let named = parser.metadata_named("x", "p", Some(String::from("n.las")));
    assert_eq!(named.file_name, "n.las");
    let laz = PointcloudParser::with_format(las_bytes(&plan(4, 7, 36)), true).unwrap();
    let m = laz.metadata("a", "b.laz");
    assert_eq!(m.format, "LAZ");
    assert_eq!(m.las_version, "1.4");
    assert!(m.has_color);
}

/// A sink that stops after a number of batches.
struct Counting {
    left: usize,
    seen: Vec<(usize, u64)>,
}

impl PointSink for Counting {
    fn accept(&mut self, batch: &[PointRecord], start_index: u64) -> bool {
        self.seen.push((batch.len(), start_index));
        self.left -= 1;
        self.left > 0
    }
}

fn seven_points() -> Plan {
    let mut p = plan(2, 0, 20);
    p.count = 7;
    for i in 0..7 {
        p.records.push(record(20, (i, 2 * i, 3 * i), i as u16));
    }
    p
}

#[test]
fn streaming_delivers_batches_in_order() {
    let parser = PointcloudParser::open("a.las", las_bytes(&seven_points())).unwrap();
    let mut all = Counting { left: 100, seen: Vec::new() };
    parser.stream_points(3, &[], &mut all).unwrap();
    assert_eq!(all.seen, vec![(3, 0), (3, 3), (1, 6)]);
    let mut two = Counting { left: 2, seen: Vec::new() };
    parser.stream_points(3, &[], &mut two).unwrap();
    assert_eq!(two.seen, vec![(3, 0), (3, 3)]);
    let mut big = Counting { left: 100, seen: Vec::new() };
    parser.stream_points(1000, &[], &mut big).unwrap();
    assert_eq!(big.seen, vec![(7, 0)]);
    // a batch size of zero delivers one empty batch and ends
    let mut none = Counting { left: 100, seen: Vec::new() };
    parser.stream_points(0, &[], &mut none).unwrap();
    assert_eq!(none.seen, vec![(0, 0)]);
}

#[test]
fn streaming_a_truncated_file_ends_with_an_empty_batch() {
    let mut p = seven_points();
    p.count = 9;
    let parser = PointcloudParser::open("a.las", las_bytes(&p)).unwrap();
    let mut sink = Counting { left: 100, seen: Vec::new() };
    parser.stream_points(4, &[], &mut sink).unwrap();
    assert_eq!(sink.seen, vec![(4, 0), (3, 4), (0, 7)]);
    let mut collector = PointCollector::new();
    parser.stream_points(4, &[], &mut collector).unwrap();
    let points = collector.into_points();
    assert_eq!(points.len(), 7);
    assert_eq!(points[6].intensity, 6);
    assert_eq!(points, parser.read_points(0, 9).unwrap());
}

#[test]
fn streaming_fails_where_records_are_too_short() {
    let mut p = plan(2, 0, 12);
    p.count = 2;
    p.records.push(vec![0u8; 12]);
    p.records.push(vec![0u8; 12]);
    let parser = PointcloudParser::open("a.las", las_bytes(&p)).unwrap();
    let mut sink = Counting { left: 100, seen: Vec::new() };
    assert_eq!(parser.stream_points(10, &[], &mut sink), Err(ParseError::TruncatedRecord));
    assert!(sink.seen.is_empty());
    let mut sink = Counting { left: 100, seen: Vec::new() };
    assert_eq!(parser.stream_points(0, &[], &mut sink), Ok(()));
    assert_eq!(sink.seen, vec![(0, 0)]);
}

#[test]
fn decompressed_records_are_decoded_like_plain_ones() {
    let p = seven_points();
    let plain = PointcloudParser::with_format(las_bytes(&p), false).unwrap();
    // The same header over no point data: the records come from outside.
    let packed = PointcloudParser::with_format(write_header(&p, 227, 0), true).unwrap();
    let mut records = Vec::new();
    for r in &p.records {
        records.extend_from_slice(r);
    }
    let decoded = packed.decode_laz_points(&records).unwrap();
    assert_eq!(decoded, plain.read_points(0, 7).unwrap());
    assert_eq!(
        packed.decode_laz_points(&records[..records.len() - 1]).unwrap_err(),
        ParseError::LazDecompressError
    );
    let mut sink = Counting { left: 100, seen: Vec::new() };
    packed.stream_points(5, &records, &mut sink).unwrap();
    assert_eq!(sink.seen, vec![(5, 0), (2, 5)]);
    let mut sink = Counting { left: 100, seen: Vec::new() };
    assert_eq!(packed.stream_points(5, &[], &mut sink), Err(ParseError::LazDecompressError));
    assert!(sink.seen.is_empty());
    let mut sink = Counting { left: 100, seen: Vec::new() };
    packed.stream_points(0, &records, &mut sink).unwrap();
    assert_eq!(sink.seen, vec![(0, 0)]);
}

#[test]
fn manager_opens_with_rising_ids() {
    let mut m = PointcloudManager::new();
    let (first, _) = m.open("a.las", las_bytes(&three_points())).unwrap();
    assert_eq!(first.id, "pc_1");
    assert_eq!(first.total_points, 3);
    assert_eq!(first.file_name, "a.las");
    // a refused file takes no id and leaves no entry
    assert!(m.open("b.las", vec![0u8; 10]).is_err());
    assert_eq!(m.list().len(), 1);
    let (second, _) = m.open("c.las", las_bytes(&seven_points())).unwrap();
    assert_eq!(second.id, "pc_2");
    let mut ids: Vec<String> = m.list().into_iter().map(|x| x.id).collect();
    ids.sort();
    assert_eq!(ids, vec![String::from("pc_1"), String::from("pc_2")]);
    assert_eq!(m.get_metadata("pc_2").unwrap().total_points, 7);
    assert!(m.get_metadata("pc_3").is_none());
    // an id is not given twice, also after a close
    assert!(m.close("pc_2"));
    let (third, _) = m.open("d.las", las_bytes(&three_points())).unwrap();
    assert_eq!(third.id, "pc_3");
}

#[test]
fn get_nodes_on_unbuilt() {
    let mut m = PointcloudManager::new();
    let (meta, _parser) = m.open("big.las", las_bytes(&seven_points())).unwrap();
    let ids = vec![String::from("r")];
    assert_eq!(m.get_nodes(&meta.id, &ids).unwrap_err(), ManagerError::NotReady);
    let p = m.get_progress(&meta.id).unwrap();
    assert!(p.phase == "Reading points" || p.phase == "Building octree");
    assert!(p.progress < 1_000_000);
    assert_eq!(p.progress, 0);
    assert_eq!(p.points_processed, 0);
    assert_eq!(p.total_points, 7);
    assert_eq!(m.get_nodes("pc_9", &ids).unwrap_err(), ManagerError::NotFound);
    assert!(m.get_progress("pc_9").is_none());
}

#[test]
fn manager_builds_and_answers() {
    let mut m = PointcloudManager::new();
    let (meta, parser) = m.open("a.las", las_bytes(&seven_points())).unwrap();
    m.build_octree(&meta.id, &parser, &[]).unwrap();
    let p = m.get_progress(&meta.id).unwrap();
    assert_eq!(p.phase, "Complete");
    assert_eq!(p.progress, 1_000_000);
    assert_eq!(p.points_processed, 7);
    let ids = vec![String::from("r"), String::from("r0"), String::from("nonsense"), String::from("r")];
    let chunks = m.get_nodes(&meta.id, &ids).unwrap();
    assert_eq!(chunks.len(), 2);
    assert_eq!(chunks[0].node_id, "r");
    assert_eq!(chunks[0].point_count, 7);
    assert_eq!(chunks[0].intensities, vec![0, 1, 2, 3, 4, 5, 6]);
    assert_eq!(chunks[1].point_count, 7);
    assert!(m.close(&meta.id));
    assert!(!m.close(&meta.id));
    assert!(m.list().is_empty());
    assert_eq!(m.get_nodes(&meta.id, &ids).unwrap_err(), ManagerError::NotFound);
}

#[test]
fn manager_steps_of_a_build() {
    let mut m = PointcloudManager::new();
    let (meta, parser) = m.open("a.las", las_bytes(&seven_points())).unwrap();
    let id = meta.id.as_str();
    m.begin_reading(id);
    m.record_progress(id, 3);
    let p = m.get_progress(id).unwrap();
    assert_eq!(p.phase, "Reading points");
    assert_eq!(p.points_processed, 3);
    assert_eq!(p.progress, 214_285);
    m.record_progress(id, 7);
    assert_eq!(m.get_progress(id).unwrap().progress, 500_000);
    m.record_progress(id, 700);
    assert_eq!(m.get_progress(id).unwrap().progress, 500_000);
    m.begin_building(id);
    let p = m.get_progress(id).unwrap();
    assert_eq!(p.phase, "Building octree");
    assert_eq!(p.progress, 500_000);
    let tree = pointcloud::octree::Octree::build(parser.read_points(0, 7).unwrap(), parser.bounds());
    m.finish_build(id, Ok(tree));
    let p = m.get_progress(id).unwrap();
    assert_eq!(p.phase, "Complete");
    assert_eq!(p.progress, 1_000_000);
    assert!(m.get_nodes(id, &vec![String::from("r")]).is_ok());
    // steps on an entry that is gone change nothing
    m.close(id);
    m.begin_reading(id);
    m.record_progress(id, 1);
    m.begin_building(id);
    m.fail(id, "late");
    assert!(m.get_progress(id).is_none());
    assert!(m.list().is_empty());
}

#[test]
fn manager_reports_a_failed_build() {
    let mut p = plan(2, 0, 12);
    p.count = 1;
    p.records.push(vec![0u8; 12]);
    let mut m = PointcloudManager::new();
    let (meta, parser) = m.open("a.las", las_bytes(&p)).unwrap();
    let id = meta.id.as_str();
    let outcome = m.build_octree(id, &parser, &[]);
    assert_eq!(outcome, Err(ParseError::TruncatedRecord));
    assert_eq!(m.get_progress(id).unwrap().phase, "Reading points");
    m.finish_build(id, Err(ParseError::TruncatedRecord));
    let progress = m.get_progress(id).unwrap();
    assert_eq!(progress.phase, "Error: Point record too short");
    assert_eq!(progress.progress, 0);
    assert_eq!(m.get_nodes(id, &vec![String::from("r")]).unwrap_err(), ManagerError::NotReady);
    m.fail(id, "disk on fire");
    assert_eq!(m.get_progress(id).unwrap().phase, "Error: disk on fire");
}

#[test]
fn error_texts() {
    assert_eq!(ParseError::InvalidHeader(HeaderFault::TooShort).message(), "File too small for LAS header");
    assert_eq!(
        ParseError::InvalidHeader(HeaderFault::BadSignature).message(),
        "Not a LAS file (invalid signature)"
    );
    assert_eq!(
        ParseError::InvalidHeader(HeaderFault::UnsupportedVersion { major: 2, minor: 0 }).message(),
        "Unsupported LAS version 2.0"
    );
    assert_eq!(
        ParseError::InvalidHeader(HeaderFault::UnsupportedVersion { major: 1, minor: 255 }).message(),
        "Unsupported LAS version 1.255"
    );
    assert_eq!(ParseError::LazVlrMissing.message(), "LASzip VLR not found in LAZ file");
    assert_eq!(ParseError::LazDecompressError.message(), "LAZ decompression error");
    assert_eq!(ParseError::UnsupportedFormat.message(), "Unsupported point format");
    assert_eq!(ParseError::TruncatedRecord.message(), "Point record too short");
    assert_eq!(ParseError::TooManyPoints.message(), "Too many points");
}
