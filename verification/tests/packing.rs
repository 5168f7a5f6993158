use pointcloud::packing::pack_chunks_binary;
use pointcloud::packing::ChunkFrame;

fn frame(id: &str, n: u32) -> ChunkFrame {
    ChunkFrame {
        node_id: String::from(id),
        center: [1.5f64.to_bits(), (-2.0f64).to_bits(), 1e9f64.to_bits()],
        level: 3,
        spacing: 0.25f32.to_bits(),
        positions: (0..3 * n).map(|i| (i as f32 * 0.5 - 1.0).to_bits()).collect(),
        colors: (0..3 * n).map(|i| (i * 7) as u8).collect(),
        intensities: (0..n).map(|i| (i * 1000 + 1) as u16).collect(),
        classifications: (0..n).map(|i| (i + 2) as u8).collect(),
        point_count: n,
    }
}

/// Reads a packed buffer back, checking the padding on the way.
fn unpack(buf: &[u8]) -> Vec<ChunkFrame> {
    let u32_at = |at: usize| u32::from_le_bytes(buf[at..at + 4].try_into().unwrap());
    let u64_at = |at: usize| u64::from_le_bytes(buf[at..at + 8].try_into().unwrap());
    let count = u32_at(0);
    let mut at = 4;
    let mut out = Vec::new();
    for _ in 0..count {
        let start = at;
        let id_len = u32_at(at) as usize;
        let id = String::from_utf8(buf[at + 4..at + 4 + id_len].to_vec()).unwrap();
        at += 4 + id_len;
        while at % 4 != 0 {
            assert_eq!(buf[at], 0);
            at += 1;
        }
        let center = [u64_at(at), u64_at(at + 8), u64_at(at + 16)];
        let level = u32_at(at + 24);
        let spacing = u32_at(at + 28);
        let n = u32_at(at + 32) as usize;
        at += 36;
        let positions = (0..3 * n).map(|j| u32_at(at + 4 * j)).collect();
        at += 12 * n;
        let colors = buf[at..at + 3 * n].to_vec();
        at += 3 * n;
        let intensities = (0..n).map(|j| u16::from_le_bytes(buf[at + 2 * j..at + 2 * j + 2].try_into().unwrap())).collect();
        at += 2 * n;
        let classifications = buf[at..at + n].to_vec();
        at += n;
        while (at - start) % 4 != 0 {
            assert_eq!(buf[at], 0);
            at += 1;
        }
        out.push(ChunkFrame {
            node_id: id,
            center,
            level: level as u8,
            spacing,
            positions,
            colors,
            intensities,
            classifications,
            point_count: n as u32,
        });
    }
    assert_eq!(at, buf.len());
    out
}

fn same(a: &ChunkFrame, b: &ChunkFrame) -> bool {
    a.node_id == b.node_id
        && a.center == b.center
        && a.level == b.level
        && a.spacing == b.spacing
        && a.positions == b.positions
        && a.colors == b.colors
        && a.intensities == b.intensities
        && a.classifications == b.classifications
        && a.point_count == b.point_count
}

#[test]
fn no_chunks_pack_to_a_count_of_zero() {
    assert_eq!(pack_chunks_binary(&[]), vec![0, 0, 0, 0]);
}

#[test]
fn layout_of_one_chunk() {
    let c = ChunkFrame {
        node_id: String::from("r07"),
        center: [0x0102_0304_0506_0708, 0, u64::MAX],
        level: 2,
        spacing: 0x3f80_0000,
        positions: vec![0x1122_3344, 0, 0xffff_ffff],
        colors: vec![9, 8, 7],
        intensities: vec![0xabcd],
        classifications: vec![5],
        point_count: 1,
    };
    let buf = pack_chunks_binary(&[c]);
    let mut want: Vec<u8> = Vec::new();
    want.extend_from_slice(&[1, 0, 0, 0]);
    want.extend_from_slice(&[3, 0, 0, 0]);
    want.extend_from_slice(b"r07");
    want.push(0);
    want.extend_from_slice(&[8, 7, 6, 5, 4, 3, 2, 1]);
    want.extend_from_slice(&[0; 8]);
    want.extend_from_slice(&[0xff; 8]);
    want.extend_from_slice(&[2, 0, 0, 0]);
    want.extend_from_slice(&[0, 0, 0x80, 0x3f]);
    want.extend_from_slice(&[1, 0, 0, 0]);
    want.extend_from_slice(&[0x44, 0x33, 0x22, 0x11, 0, 0, 0, 0, 0xff, 0xff, 0xff, 0xff]);
    want.extend_from_slice(&[9, 8, 7]);
    want.extend_from_slice(&[0xcd, 0xab]);
    want.push(5);
    // 4 + 4 + 36 + 12 + 6 = 62 bytes of chunk: two bytes of padding
    want.extend_from_slice(&[0, 0]);
    assert_eq!(buf, want);
    assert_eq!(buf.len() % 4, 0);
}

#[test]
fn packing_round_trip() {
    let chunks = vec![frame("r", 0), frame("r1", 1), frame("r123", 2), frame("r12345", 3), frame("", 4), frame("r0", 5)];
    let buf = pack_chunks_binary(&chunks);
    assert_eq!(buf.len() % 4, 0);
    let back = unpack(&buf);
    assert_eq!(back.len(), chunks.len());
    for (a, b) in back.iter().zip(chunks.iter()) {
        assert!(same(a, b));
    }
    // and packing what was read gives the same bytes
    assert_eq!(pack_chunks_binary(&back), buf);
}

#[test]
fn ids_are_packed_as_utf8() {
    let c = frame("r\u{e9}", 0);
    let buf = pack_chunks_binary(&[c]);
    assert_eq!(&buf[4..8], &[3, 0, 0, 0]);
    assert_eq!(&buf[8..12], &[b'r', 0xc3, 0xa9, 0]);
    assert_eq!(buf.len(), 4 + 4 + 4 + 36);
}
