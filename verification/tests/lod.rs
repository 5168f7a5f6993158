use pointcloud::lod::collect_visible;
use pointcloud::lod::sort_by_priority;
use pointcloud::lod::Candidate;
use pointcloud::octree::Octree;
use pointcloud::types::BoundingBox3D;
use pointcloud::types::CameraState;
use pointcloud::types::PointRecord;

const UNIT: i64 = 1_000_000;

fn unit_cube() -> BoundingBox3D {
    BoundingBox3D { min_x: 0, min_y: 0, min_z: 0, max_x: UNIT, max_y: UNIT, max_z: UNIT }
}

fn scattered(n: usize) -> Vec<PointRecord> {
    let mut state: u64 = 0xfeed_beef_0bad_cafe;
    let mut next = move || {
        state = state.wrapping_mul(6364136223846793005).wrapping_add(1442695040888963407);
        ((state >> 33) % (UNIT as u64 + 1)) as i64
    };
    (0..n)
        .map(|_| PointRecord { x: next(), y: next(), z: next(), r: 0, g: 0, b: 0, intensity: 0, classification: 0 })
        .collect()
}

/// A camera with a field of view of 60 degrees and a screen of 1080
/// pixels.
fn camera(x: f64, y: f64, z: f64) -> CameraState {
    CameraState {
        position: [(x * 1e6) as i64, (y * 1e6) as i64, (z * 1e6) as i64],
        target: [0, 0, 0],
        half_fov_tan: (30f64.to_radians().tan() * 1e6).round() as i64,
        aspect: 1_777_778,
        screen_height: 1_080_000_000,
    }
}

fn candidate(id: &str, distance: u64, extent: u64, point_count: u32) -> Candidate {
    Candidate { node_id: String::from(id), distance, extent, point_count }
}

#[test]
fn lod_cull_by_distance() {
    for n in [0usize, 1, 10, 70_000] {
        let tree = Octree::build(scattered(n), unit_cube());
        let ids = tree.get_visible_nodes(&camera(0.0, 0.0, 1e9), 1_000_000_000);
        assert!(ids.is_empty());
    }
}

#[test]
fn lod_budget() {
    let tree = Octree::build(scattered(500), unit_cube());
    // screen size = 1 / d * 1080 / (2 tan 30) = 400 at d = 2.3383
    let cam = camera(0.5, 0.5, 0.5 + 2.3383);
    for budget in [0u32, 1, 499, 500, 501, u32::MAX] {
        assert_eq!(tree.get_visible_nodes(&cam, budget), vec![String::from("r")]);
    }
}

#[test]
fn an_empty_tree_shows_nothing() {
    let tree = Octree::build(Vec::new(), unit_cube());
    assert!(tree.get_visible_nodes(&camera(0.5, 0.5, 0.5), 1000).is_empty());
    assert!(tree.get_visible_nodes(&camera(0.5, 0.5, 3.0), 1000).is_empty());
}

#[test]
fn a_camera_in_the_centre_sees_the_node() {
    let tree = Octree::build(scattered(10), unit_cube());
    // within 0.001 of the centre the screen size counts as unbounded
    let mut cam = camera(0.5, 0.5, 0.5);
    assert_eq!(tree.get_visible_nodes(&cam, 5), vec![String::from("r")]);
    cam.position[0] += 999;
    assert_eq!(tree.get_visible_nodes(&cam, 5), vec![String::from("r")]);
    // a tangent of zero makes the screen size unbounded too
    let mut flat = camera(0.5, 0.5, 1e6);
    flat.half_fov_tan = 0;
    assert_eq!(tree.get_visible_nodes(&flat, 5), vec![String::from("r")]);
    // a negative tangent makes it negative
    flat.half_fov_tan = -1;
    assert!(tree.get_visible_nodes(&flat, 5).is_empty());
    // and so does a negative screen height
    let mut upside = camera(0.5, 0.5, 3.0);
    upside.screen_height = -1_080_000_000;
    assert!(tree.get_visible_nodes(&upside, 5).is_empty());
}

#[test]
fn cull_threshold_is_one_pixel() {
    let tree = Octree::build(scattered(10), unit_cube());
    // s / d * 1080 / (2 * 0.57735) with s = 1: one pixel at d = 935.3
    let mut cam = camera(0.5, 0.5, 0.5);
    cam.half_fov_tan = 500_000;
    cam.screen_height = 1_000_000;
    // now the screen size is exactly 1 / d
    cam.position[2] = 500_000 + 1_000_000;
    assert_eq!(tree.get_visible_nodes(&cam, 100).len(), 1);
    cam.position[2] = 500_000 + 1_000_001;
    assert_eq!(tree.get_visible_nodes(&cam, 100).len(), 0);
}

#[test]
fn internal_nodes_stand_in_below_200_pixels() {
    let tree = Octree::build(scattered(70_000), unit_cube());
    let mut cam = camera(0.5, 0.5, 0.5);
    cam.half_fov_tan = 500_000;
    cam.screen_height = 1_000_000;
    // screen size of the root: 1 / d. At d = 0.004 it is 250: the root is
    // refined, and only its children are candidates.
    cam.position[2] = 500_000 + 4_000;
    let mut found = Vec::new();
    collect_visible(&tree.root, &cam, &mut found);
    let ids: Vec<&str> = found.iter().map(|c| c.node_id.as_str()).collect();
    assert_eq!(ids, vec!["r0", "r1", "r2", "r3", "r4", "r5", "r6", "r7"]);
    // At d = 0.01 it is 100: the root is a candidate, and so are its
    // children.
    cam.position[2] = 500_000 + 10_000;
    let mut found = Vec::new();
    collect_visible(&tree.root, &cam, &mut found);
    let ids: Vec<&str> = found.iter().map(|c| c.node_id.as_str()).collect();
    assert_eq!(ids, vec!["r", "r0", "r1", "r2", "r3", "r4", "r5", "r6", "r7"]);
    assert_eq!(found[0].distance, 10_000);
    assert_eq!(found[0].extent, 1_000_000);
    assert_eq!(found[0].point_count as usize, tree.root.points.len());
    assert_eq!(found[1].extent, 500_000);
    // the centre of r0 is (0.25, 0.25, 0.25): 0.25^2 * 2 + 0.26^2 = 0.1926
    assert_eq!(found[1].distance, 438_862);
}

#[test]
fn nearer_nodes_come_first() {
    let tree = Octree::build(scattered(70_000), unit_cube());
    // close to the corner of octant 7
    let cam = camera(0.9, 0.9, 0.9);
    let ids = tree.get_visible_nodes(&cam, u32::MAX);
    assert_eq!(ids.len(), 8);
    assert_eq!(ids[0], "r7");
    assert_eq!(ids[7], "r0");
    // the three octants that share a face with r7 follow, in the order in
    // which the tree is walked
    assert_eq!(&ids[1..4], &[String::from("r3"), String::from("r5"), String::from("r6")]);
}

#[test]
fn a_smaller_budget_selects_a_prefix() {
    let tree = Octree::build(scattered(70_000), unit_cube());
    let cam = camera(0.9, 0.8, 0.7);
    let all = tree.get_visible_nodes(&cam, u32::MAX);
    assert_eq!(all.len(), 8);
    let mut budget = 80_000u32;
    let mut last = all.clone();
    loop {
        let now = tree.get_visible_nodes(&cam, budget);
        assert!(now.len() <= last.len());
        assert_eq!(&last[..now.len()], &now[..]);
        assert!(!now.is_empty());
        let counts: u64 = now.iter().map(|id| tree.get_node_info(id).unwrap().point_count as u64).sum();
        assert!(counts <= budget as u64 || now.len() == 1);
        last = now;
        if budget == 0 {
            break;
        }
        budget /= 2;
    }
    assert_eq!(last.len(), 1);
}

#[test]
fn sorting_keeps_the_order_of_equals() {
    let input = vec![
        candidate("a", 10, 2, 1),
        candidate("b", 5, 1, 1),
        candidate("c", 1, 1, 1),
        candidate("d", 20, 4, 1),
        candidate("e", 0, 7, 1),
        candidate("f", 3, 1, 1),
    ];
    let sorted = sort_by_priority(&input);
    let ids: Vec<&str> = sorted.iter().map(|c| c.node_id.as_str()).collect();
    assert_eq!(ids, vec!["e", "c", "f", "a", "b", "d"]);
    assert_eq!(sorted[3].distance, 10);
    assert_eq!(sorted[3].extent, 2);
    assert!(sort_by_priority(&Vec::new()).is_empty());
    // products beyond 64 bits are compared exactly
    let big = vec![candidate("x", u64::MAX, u64::MAX - 1, 1), candidate("y", u64::MAX - 1, u64::MAX, 1)];
    let ids: Vec<String> = sort_by_priority(&big).into_iter().map(|c| c.node_id).collect();
    assert_eq!(ids, vec![String::from("y"), String::from("x")]);
}

#[test]
fn a_camera_from_doubles() {
    let cam = CameraState::from_doubles(
        &[1.5f64.to_bits(), (-2.25f64).to_bits(), 0.0f64.to_bits()],
        &[0.0f64.to_bits(), 0.0f64.to_bits(), 1e3f64.to_bits()],
        0.57735f64.to_bits(),
        (16.0f64 / 9.0).to_bits(),
        1080.0f64.to_bits(),
    )
    .unwrap();
    assert_eq!(cam.position, [1_500_000, -2_250_000, 0]);
    assert_eq!(cam.target, [0, 0, 1_000_000_000]);
    assert_eq!(cam.half_fov_tan, 577_350);
    assert_eq!(cam.aspect, 1_777_778);
    assert_eq!(cam.screen_height, 1_080_000_000);
    assert!(cam.is_valid());
    let zero = 0.0f64.to_bits();
    let one = 1.0f64.to_bits();
    assert!(CameraState::from_doubles(&[f64::NAN.to_bits(), zero, zero], &[zero; 3], one, one, one).is_none());
    assert!(CameraState::from_doubles(&[zero; 3], &[zero, 1e10f64.to_bits(), zero], one, one, one).is_none());
    assert!(CameraState::from_doubles(&[zero; 3], &[zero; 3], f64::INFINITY.to_bits(), one, one).is_none());
    assert!(CameraState::from_doubles(&[zero; 3], &[zero; 3], one, one, 1e300f64.to_bits()).is_none());
    let far = CameraState { position: [i64::MAX, 0, 0], target: [0; 3], half_fov_tan: 1, aspect: 1, screen_height: 1 };
    assert!(!far.is_valid());
}
