use pointcloud::octree::get_octant;
use pointcloud::types::BoundingBox3D;

fn cube(lo: i64, hi: i64) -> BoundingBox3D {
    BoundingBox3D { min_x: lo, min_y: lo, min_z: lo, max_x: hi, max_y: hi, max_z: hi }
}

#[test]
fn new_box_contains_nothing_and_expands_to_a_point() {
    let mut b = BoundingBox3D::new();
    assert!(!b.contains(0, 0, 0));
    assert!(!b.contains(i64::MAX, i64::MAX, i64::MAX));
    assert!(!b.is_valid());
    b.expand(3, -4, 5);
    assert_eq!(b, BoundingBox3D { min_x: 3, min_y: -4, min_z: 5, max_x: 3, max_y: -4, max_z: 5 });
    b.expand(-1, 10, 5);
    assert_eq!(b, BoundingBox3D { min_x: -1, min_y: -4, min_z: 5, max_x: 3, max_y: 10, max_z: 5 });
    assert!(b.contains(3, -4, 5));
    assert!(b.contains(0, 0, 5));
    assert!(!b.contains(0, 0, 6));
    assert!(b.is_valid());
}

#[test]
fn derived_measures() {
    let b = BoundingBox3D { min_x: -10, min_y: 0, min_z: 5, max_x: 11, max_y: 8, max_z: 5 };
    assert_eq!(b.center(), [0, 4, 5]);
    assert_eq!(b.size(), [21, 8, 0]);
    assert_eq!(b.max_extent(), 21);
    // the midpoint is rounded toward the lower bound
    assert_eq!(cube(-3, 0).center(), [-2, -2, -2]);
    assert_eq!(cube(0, 3).center(), [1, 1, 1]);
    assert_eq!(cube(7, 7).center(), [7, 7, 7]);
    // no overflow at the ends of the range
    let all = cube(i64::MIN, i64::MAX);
    assert_eq!(all.center(), [-1, -1, -1]);
    assert_eq!(all.size(), [u64::MAX as i128; 3]);
    assert_eq!(BoundingBox3D::new().size(), [-(u64::MAX as i128); 3]);
    assert_eq!(BoundingBox3D::new().center(), [-1, -1, -1]);
}

#[test]
fn octants_split_at_the_centre() {
    let b = BoundingBox3D { min_x: 0, min_y: 10, min_z: 100, max_x: 4, max_y: 20, max_z: 200 };
    assert_eq!(b.octant(0), BoundingBox3D { min_x: 0, min_y: 10, min_z: 100, max_x: 2, max_y: 15, max_z: 150 });
    assert_eq!(b.octant(1), BoundingBox3D { min_x: 2, min_y: 10, min_z: 100, max_x: 4, max_y: 15, max_z: 150 });
    assert_eq!(b.octant(2), BoundingBox3D { min_x: 0, min_y: 15, min_z: 100, max_x: 2, max_y: 20, max_z: 150 });
    assert_eq!(b.octant(4), BoundingBox3D { min_x: 0, min_y: 10, min_z: 150, max_x: 2, max_y: 15, max_z: 200 });
    assert_eq!(b.octant(7), BoundingBox3D { min_x: 2, min_y: 15, min_z: 150, max_x: 4, max_y: 20, max_z: 200 });
    // only the three low bits of the index count
    assert_eq!(b.octant(8 + 5), b.octant(5));
}

#[test]
fn a_point_off_the_centre_planes_lies_in_one_octant() {
    let b = cube(0, 10);
    for x in 0..=10i64 {
        for y in 0..=10i64 {
            for z in 0..=10i64 {
                let home = get_octant(&b, x, y, z);
                assert!(home < 8);
                assert!(b.octant(home).contains(x, y, z));
                let holders = (0..8u8).filter(|m| b.octant(*m).contains(x, y, z)).count();
                if x != 5 && y != 5 && z != 5 {
                    assert_eq!(holders, 1);
                } else {
                    assert!(holders > 1);
                }
            }
        }
    }
    // on all three centre planes at once, every octant holds the point
    assert_eq!((0..8u8).filter(|m| b.octant(*m).contains(5, 5, 5)).count(), 8);
    // and the upper octant takes it
    assert_eq!(get_octant(&b, 5, 5, 5), 7);
    assert_eq!(get_octant(&b, 4, 5, 4), 2);
    assert_eq!(get_octant(&b, 5, 4, 4), 1);
    assert_eq!(get_octant(&b, 4, 4, 5), 4);
    assert_eq!(get_octant(&b, 4, 4, 4), 0);
}
