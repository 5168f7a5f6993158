use pointcloud::fixed::micro_from_bits;
use pointcloud::ieee::f32_bits;
use pointcloud::ieee::f32_bits_unsigned;
use pointcloud::ieee::f64_bits;
use pointcloud::manager::PointcloudManager;
use pointcloud::octree::Octree;
use pointcloud::packing::chunk_frame;
use pointcloud::packing::pack_chunks_binary;
use pointcloud::types::BoundingBox3D;
use pointcloud::types::PointRecord;

/// The float nearest to `v` millionths, as the decimal parser of the
/// standard library finds it.
fn nearest_f32(v: i128) -> u32 {
    format!("{}e-6", v).parse::<f32>().unwrap().to_bits()
}

fn nearest_f64(v: i128) -> u64 {
    format!("{}e-6", v).parse::<f64>().unwrap().to_bits()
}

fn samples() -> Vec<i64> {
    let mut out = vec![
        1,
        2,
        3,
        7,
        999_999,
        1_000_000,
        1_000_001,
        1_500_000,
        16_777_215,
        16_777_216,
        16_777_217,
        123_456_789,
        8_388_608_000_000,
        8_388_608_500_000,
        8_388_609_500_000,
        16_777_216_000_000,
        16_777_217_000_000,
        16_777_219_000_000,
        1 << 53,
        (1 << 53) + 1,
        (1 << 54) - 1,
        i64::MAX,
    ];
    let mut state: u64 = 42;
    for i in 0..4000 {
        state = state.wrapping_mul(6364136223846793005).wrapping_add(1442695040888963407);
        out.push(((state >> 1) >> (i % 63)) as i64);
    }
    out
}

#[test]
fn single_precision_bits_of_millionths() {
    assert_eq!(f32_bits(0), 0);
    assert_eq!(f32_bits(1_000_000), 1.0f32.to_bits());
    assert_eq!(f32_bits(-1_000_000), (-1.0f32).to_bits());
    assert_eq!(f32_bits(500_000), 0.5f32.to_bits());
    assert_eq!(f32_bits(-2_500_000), (-2.5f32).to_bits());
    assert_eq!(f32_bits(1), 1e-6f32.to_bits());
    assert_eq!(f32_bits(10_000), 0.01f32.to_bits());
    assert_eq!(f32_bits(i64::MIN), nearest_f32(i64::MIN as i128));
    assert_eq!(f32_bits_unsigned(u64::MAX), nearest_f32(u64::MAX as i128));
    // ties go to the even significand: 2^24 + 1 and 2^24 + 3 lie halfway
    assert_eq!(f32_bits(16_777_217_000_000), 16_777_216.0f32.to_bits());
    assert_eq!(f32_bits(16_777_219_000_000), 16_777_220.0f32.to_bits());
    for v in samples() {
        assert_eq!(f32_bits(v), nearest_f32(v as i128));
        assert_eq!(f32_bits(-v), nearest_f32(-(v as i128)));
        assert_eq!(f32_bits_unsigned(v as u64), nearest_f32(v as i128));
    }
}

#[test]
fn double_precision_bits_of_millionths() {
    assert_eq!(f64_bits(0), 0);
    assert_eq!(f64_bits(1_000_000), 1.0f64.to_bits());
    assert_eq!(f64_bits(-1_000_000), (-1.0f64).to_bits());
    assert_eq!(f64_bits(1_000_020_000), 1000.02f64.to_bits());
    assert_eq!(f64_bits(1), 1e-6f64.to_bits());
    assert_eq!(f64_bits(i64::MIN), nearest_f64(i64::MIN as i128));
    for v in samples() {
        assert_eq!(f64_bits(v), nearest_f64(v as i128));
        assert_eq!(f64_bits(-v), nearest_f64(-(v as i128)));
    }
}

#[test]
fn doubles_and_millionths_agree() {
    // Below 2^52 millionths, the nearest double of a number of millionths
    // rounds back to it.
    for v in samples() {
        if v < (1 << 52) {
            assert_eq!(micro_from_bits(f64_bits(v)), Some(v));
            assert_eq!(micro_from_bits(f64_bits(-v)), Some(-v));
        }
    }
    assert_eq!(micro_from_bits(f64_bits(1 << 53)), Some(1 << 53));
    assert_eq!(micro_from_bits(f64_bits((1 << 53) + 1)), None);
}

fn small_tree() -> Octree {
    let bounds = BoundingBox3D { min_x: -1_000_000, min_y: 0, min_z: 0, max_x: 3_000_000, max_y: 2_000_000, max_z: 500_000 };
    let points = vec![
        PointRecord { x: 1_500_000, y: 250_000, z: 0, r: 1, g: 2, b: 3, intensity: 300, classification: 4 },
        PointRecord { x: -1_000_000, y: 2_000_000, z: 500_000, r: 5, g: 6, b: 7, intensity: 65535, classification: 8 },
    ];
    Octree::build(points, bounds)
}

#[test]
fn a_chunk_as_floats() {
    let chunk = small_tree().get_node_chunk("r").unwrap();
    let frame = chunk_frame(&chunk);
    assert_eq!(frame.node_id, "r");
    assert_eq!(frame.center, [1.0f64.to_bits(), 1.0f64.to_bits(), 0.25f64.to_bits()]);
    assert_eq!(frame.level, 0);
    // the two longest sides are 4 and 2: the square root of 8 / 2 is 2
    assert_eq!(frame.spacing, 2.0f32.to_bits());
    let positions: Vec<f32> = frame.positions.iter().map(|b| f32::from_bits(*b)).collect();
    assert_eq!(positions, vec![0.5, -0.75, -0.25, -2.0, 1.0, 0.25]);
    assert_eq!(frame.colors, vec![1, 2, 3, 5, 6, 7]);
    assert_eq!(frame.intensities, vec![300, 65535]);
    assert_eq!(frame.classifications, vec![4, 8]);
    assert_eq!(frame.point_count, 2);
}

#[test]
fn nodes_as_one_buffer() {
    let mut bytes = vec![0u8; 227];
    bytes[0..4].copy_from_slice(b"LASF");
    bytes[24] = 1;
    bytes[25] = 2;
    bytes[96..100].copy_from_slice(&227u32.to_le_bytes());
    bytes[105..107].copy_from_slice(&20u16.to_le_bytes());
    bytes[107..111].copy_from_slice(&2u32.to_le_bytes());
    for k in 0..3 {
        bytes[131 + 8 * k..139 + 8 * k].copy_from_slice(&0.5f64.to_le_bytes());
        bytes[179 + 16 * k..187 + 16 * k].copy_from_slice(&4.0f64.to_le_bytes());
    }
    for (x, intensity) in [(2i32, 11u16), (6, 12)] {
        let mut r = vec![0u8; 20];
        r[0..4].copy_from_slice(&x.to_le_bytes());
        r[12..14].copy_from_slice(&intensity.to_le_bytes());
        bytes.extend_from_slice(&r);
    }
    let mut m = PointcloudManager::new();
    let (meta, parser) = m.open("a.las", bytes).unwrap();
    let ids = vec![String::from("r"), String::from("r9"), String::from("r")];
    assert!(m.get_nodes_binary(&meta.id, &ids).is_err());
    m.build_octree(&meta.id, &parser, &[]).unwrap();
    let buf = m.get_nodes_binary(&meta.id, &ids).unwrap();
    let chunks = m.get_nodes(&meta.id, &ids).unwrap();
    let frames: Vec<_> = chunks.iter().map(chunk_frame).collect();
    assert_eq!(buf, pack_chunks_binary(&frames));
    // count, then twice: id length, "r" and padding, centre (2, 2, 2), ...
    assert_eq!(&buf[0..4], &[2, 0, 0, 0]);
    assert_eq!(&buf[4..12], &[1, 0, 0, 0, b'r', 0, 0, 0]);
    assert_eq!(&buf[12..20], &2.0f64.to_le_bytes());
    assert_eq!(&buf[36..40], &[0, 0, 0, 0]);
    // spacing: sides of 4, the square root of 16 / 2
    let spacing = f32::from_bits(u32::from_le_bytes(buf[40..44].try_into().unwrap()));
    assert!((spacing - 8f32.sqrt()).abs() < 1e-6);
    assert_eq!(&buf[44..48], &[2, 0, 0, 0]);
    assert_eq!(&buf[48..52], &(-1.0f32).to_le_bytes());
    assert_eq!(&buf[60..64], &1.0f32.to_le_bytes());
    // 8 + 36 + 2 * 18 = 80 bytes for each of the two chunks
    assert_eq!(buf.len(), 4 + 2 * 80);
    assert_eq!(&buf[4..84], &buf[84..164]);
}
