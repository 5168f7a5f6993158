use pointcloud::octree::Octree;
use pointcloud::octree::OctreeNode;
use pointcloud::octree::MAX_DEPTH;
use pointcloud::octree::MAX_POINTS_PER_LEAF;
use pointcloud::types::BoundingBox3D;
use pointcloud::types::PointRecord;

const UNIT: i64 = 1_000_000;

fn unit_cube() -> BoundingBox3D {
    BoundingBox3D { min_x: 0, min_y: 0, min_z: 0, max_x: UNIT, max_y: UNIT, max_z: UNIT }
}

fn point(x: i64, y: i64, z: i64, tag: u16) -> PointRecord {
    PointRecord { x, y, z, r: 1, g: 2, b: 3, intensity: tag, classification: 9 }
}

/// Points spread over the unit cube by a linear congruential generator.
fn scattered(n: usize) -> Vec<PointRecord> {
    let mut state: u64 = 0x1234_5678_9abc_def0;
    let mut next = move || {
        state = state.wrapping_mul(6364136223846793005).wrapping_add(1442695040888963407);
        ((state >> 33) % (UNIT as u64 + 1)) as i64
    };
    (0..n).map(|i| point(next(), next(), next(), (i % 65_536) as u16)).collect()
}

fn each_node(node: &OctreeNode, visit: &mut dyn FnMut(&OctreeNode)) {
    visit(node);
    for child in node.children.iter().flatten() {
        each_node(child, visit);
    }
}

fn sample_size(node: &OctreeNode) -> usize {
    node.children.iter().flatten().map(|c| (c.points.len() + 7) / 8).sum()
}

#[test]
fn octree_split() {
    let points = scattered(70_000);
    let tree = Octree::build(points.clone(), unit_cube());
    assert_eq!(tree.total_points, 70_000);
    assert_eq!(tree.root.node_id, "r");
    assert_eq!(tree.root.level, 0);
    assert!(tree.root.has_children());
    assert!(tree.root.children.iter().all(|c| c.is_some()));
    let mut leaf_sum = 0;
    each_node(&tree.root, &mut |n| {
        if n.is_leaf() {
            leaf_sum += n.points.len();
            assert!(n.points.len() <= MAX_POINTS_PER_LEAF);
            for p in &n.points {
                assert!(n.bounds.contains(p.x, p.y, p.z));
            }
        }
    });
    assert_eq!(leaf_sum, 70_000);
    // the root keeps every 8th point of each child, in the order of the children
    assert_eq!(tree.root.points.len(), sample_size(&tree.root));
    assert!(tree.root.points.len() >= 8_750 && tree.root.points.len() <= 8_757);
    let mut expected = Vec::new();
    for child in tree.root.children.iter().flatten() {
        expected.extend(child.points.iter().step_by(8).copied());
    }
    assert_eq!(tree.root.points, expected);
    // a leaf holds its points in the order in which they came
    for (k, child) in tree.root.children.iter().enumerate() {
        let child = child.as_ref().unwrap();
        let mine: Vec<PointRecord> = points
            .iter()
            .filter(|p| pointcloud::octree::get_octant(&tree.root.bounds, p.x, p.y, p.z) as usize == k)
            .copied()
            .collect();
        assert_eq!(child.points, mine);
        assert_eq!(child.bounds, tree.root.bounds.octant(k as u8));
    }
}

#[test]
fn few_points_stay_in_the_root() {
    let points = scattered(1_000);
    let tree = Octree::build(points.clone(), unit_cube());
    assert!(tree.root.is_leaf());
    assert!(!tree.root.has_children());
    assert_eq!(tree.root.points, points);
    assert_eq!(tree.root.point_count(), 1_000);
    let empty = Octree::build(Vec::new(), unit_cube());
    assert!(empty.root.is_leaf());
    assert_eq!(empty.root.points.len(), 0);
    assert_eq!(empty.total_points, 0);
    let full = Octree::build(scattered(MAX_POINTS_PER_LEAF), unit_cube());
    assert!(full.root.is_leaf());
    let over = Octree::build(scattered(MAX_POINTS_PER_LEAF + 1), unit_cube());
    assert!(!over.root.is_leaf());
}

#[test]
fn equal_points_go_down_to_the_depth_limit() {
    let n = MAX_POINTS_PER_LEAF + 5;
    let points: Vec<PointRecord> = (0..n).map(|i| point(0, UNIT, 0, (i % 1000) as u16)).collect();
    let tree = Octree::build(points, unit_cube());
    let mut deepest = 0;
    let mut nodes = 0;
    each_node(&tree.root, &mut |node| {
        nodes += 1;
        assert!(node.level <= MAX_DEPTH);
        assert_eq!(node.node_id.len(), node.level as usize + 1);
        deepest = deepest.max(node.level);
        if node.is_leaf() {
            assert_eq!(node.level, MAX_DEPTH);
            assert_eq!(node.points.len(), n);
            assert_eq!(node.node_id, "r222222222222");
        } else {
            // one child, and of it every 8th point of what that child holds
            assert_eq!(node.children.iter().flatten().count(), 1);
            assert_eq!(node.points.len(), sample_size(node));
        }
    });
    assert_eq!(deepest, MAX_DEPTH);
    assert_eq!(nodes, 13);
}

#[test]
fn ids_extend_the_id_of_the_parent() {
    let tree = Octree::build(scattered(70_000), unit_cube());
    each_node(&tree.root, &mut |v| {
        for (k, c) in v.children.iter().enumerate() {
            if let Some(c) = c {
                assert!(c.node_id.starts_with(&v.node_id));
                assert_eq!(c.node_id.len(), v.node_id.len() + 1);
                assert_eq!(c.node_id, format!("{}{}", v.node_id, k));
                assert_eq!(c.level, v.level + 1);
            }
        }
    });
}

#[test]
fn nodes_are_found_by_their_ids() {
    let tree = Octree::build(scattered(70_000), unit_cube());
    each_node(&tree.root, &mut |n| {
        let found = tree.find_node(&n.node_id).unwrap();
        assert_eq!(found.node_id, n.node_id);
        assert_eq!(found.points, n.points);
    });
    assert!(tree.find_node("").is_none());
    assert!(tree.find_node("x").is_none());
    assert!(tree.find_node("R").is_none());
    assert!(tree.find_node("r8").is_none());
    assert!(tree.find_node("r0x").is_none());
    assert!(tree.find_node("rr").is_none());
    assert!(tree.find_node("r00").is_none());
    assert!(tree.find_node("r\u{661}").is_none());
    assert_eq!(tree.find_node("r3").unwrap().level, 1);
}

#[test]
fn infos_of_nodes() {
    let tree = Octree::build(scattered(70_000), unit_cube());
    let info = tree.get_node_info("r").unwrap();
    assert_eq!(info.node_id, "r");
    assert_eq!(info.bounds, unit_cube());
    assert_eq!(info.level, 0);
    assert_eq!(info.point_count as usize, tree.root.points.len());
    assert!(info.has_children);
    let leaf = tree.get_node_info("r5").unwrap();
    assert_eq!(leaf.level, 1);
    assert!(!leaf.has_children);
    assert_eq!(leaf.bounds, unit_cube().octant(5));
    assert!(tree.get_node_info("r55").is_none());
    let all = tree.all_node_infos();
    let ids: Vec<&str> = all.iter().map(|i| i.node_id.as_str()).collect();
    assert_eq!(ids, vec!["r", "r0", "r1", "r2", "r3", "r4", "r5", "r6", "r7"]);
    let total: u32 = all.iter().filter(|i| !i.has_children).map(|i| i.point_count).sum();
    assert_eq!(total, 70_000);
}

#[test]
fn chunk_of_a_node() {
    let bounds = BoundingBox3D { min_x: 0, min_y: 0, min_z: 0, max_x: 4 * UNIT, max_y: 9 * UNIT, max_z: UNIT };
    let points = vec![
        PointRecord { x: 0, y: 0, z: 0, r: 10, g: 20, b: 30, intensity: 7, classification: 1 },
        PointRecord { x: 4 * UNIT, y: 9 * UNIT, z: UNIT, r: 11, g: 21, b: 31, intensity: 8, classification: 2 },
        PointRecord { x: 2 * UNIT, y: 5 * UNIT, z: 1, r: 12, g: 22, b: 32, intensity: 9, classification: 3 },
        PointRecord { x: 1, y: 2, z: 3, r: 13, g: 23, b: 33, intensity: 10, classification: 4 },
    ];
    let tree = Octree::build(points, bounds);
    let chunk = tree.get_node_chunk("r").unwrap();
    assert_eq!(chunk.node_id, "r");
    assert_eq!(chunk.center, [2 * UNIT, 4_500_000, 500_000]);
    assert_eq!(chunk.level, 0);
    assert_eq!(chunk.point_count, 4);
    assert_eq!(
        chunk.positions,
        vec![
            -2 * UNIT,
            -4_500_000,
            -500_000,
            2 * UNIT,
            4_500_000,
            500_000,
            0,
            500_000,
            -499_999,
            -1_999_999,
            -4_499_998,
            -499_997
        ]
    );
    assert_eq!(chunk.colors, vec![10, 20, 30, 11, 21, 31, 12, 22, 32, 13, 23, 33]);
    assert_eq!(chunk.intensities, vec![7, 8, 9, 10]);
    assert_eq!(chunk.classifications, vec![1, 2, 3, 4]);
    // the two longest sides are 9 and 4: the square root of 36 / 4 is 3
    assert_eq!(chunk.spacing, 3 * UNIT as u64);
    assert!(tree.get_node_chunk("r0").is_none());
    assert!(tree.get_node_chunk("").is_none());
    let empty = Octree::build(Vec::new(), bounds);
    assert!(empty.get_node_chunk("r").is_none());
}

#[test]
fn spacing_is_rounded_down() {
    let bounds = BoundingBox3D { min_x: 0, min_y: 0, min_z: 0, max_x: 10, max_y: 3, max_z: 7 };
    let points: Vec<PointRecord> = (0..3).map(|i| point(i, 0, 0, 0)).collect();
    let tree = Octree::build(points, bounds);
    // 10 * 7 / 3 = 23, whose square root is 4.79
    assert_eq!(tree.get_node_chunk("r").unwrap().spacing, 4);
}
