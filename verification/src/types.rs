//! Value types: boxes, points, and the shapes handed to a client.

use vstd::prelude::*;
use crate::fixed::coord_ok;
use crate::fixed::is_coord;
use crate::fixed::micro_from_bits;
use crate::fixed::micro_of;
use crate::fixed::scaled_ok;

verus! {

/// The midpoint of two coordinates, rounded toward the smaller one.
pub open spec fn mid(a: int, b: int) -> int {
    if a <= b {
        a + (b - a) / 2
    } else {
        b + (a - b) / 2
    }
}

/// Bit 0 of an octant index: the upper half in `x`.
pub open spec fn upper_x(index: u8) -> bool {
    index % 2 == 1
}

/// Bit 1 of an octant index: the upper half in `y`.
pub open spec fn upper_y(index: u8) -> bool {
    (index / 2) % 2 == 1
}

/// Bit 2 of an octant index: the upper half in `z`.
pub open spec fn upper_z(index: u8) -> bool {
    (index / 4) % 2 == 1
}

/// The octant index whose three bits are the given flags.
pub open spec fn octant_index(ux: bool, uy: bool, uz: bool) -> u8 {
    ((if ux { 1int } else { 0int }) + (if uy { 2int } else { 0int }) + (if uz { 4int } else { 0int })) as u8
}

fn midpoint(a: i64, b: i64) -> (m: i64)
    ensures
        m as int == mid(a as int, b as int),
{
    if a <= b {
        let d: i128 = (b as i128 - a as i128) / 2;
        (a as i128 + d) as i64
    } else {
        let d: i128 = (a as i128 - b as i128) / 2;
        (b as i128 + d) as i64
    }
}

/// An axis-aligned box, in millionths of a unit.
#[derive(Debug, Clone, Copy, PartialEq, Eq, Structural)]
pub struct BoundingBox3D {
    pub min_x: i64,
    pub min_y: i64,
    pub min_z: i64,
    pub max_x: i64,
    pub max_y: i64,
    pub max_z: i64,
}

impl BoundingBox3D {
    /// `min <= max` on every axis.
    pub open spec fn non_empty(self) -> bool {
        self.min_x <= self.max_x && self.min_y <= self.max_y && self.min_z <= self.max_z
    }

    /// The sentinel that `new` returns: it contains nothing, and expanding
    /// it by a point gives the box of that point.
    pub open spec fn empty_sentinel() -> BoundingBox3D {
        BoundingBox3D {
            min_x: i64::MAX,
            min_y: i64::MAX,
            min_z: i64::MAX,
            max_x: i64::MIN,
            max_y: i64::MIN,
            max_z: i64::MIN,
        }
    }

    /// The centre on the `x` axis.
    pub open spec fn center_x(self) -> int {
        mid(self.min_x as int, self.max_x as int)
    }

    /// The centre on the `y` axis.
    pub open spec fn center_y(self) -> int {
        mid(self.min_y as int, self.max_y as int)
    }

    /// The centre on the `z` axis.
    pub open spec fn center_z(self) -> int {
        mid(self.min_z as int, self.max_z as int)
    }

    /// The length of the side along `x`.
    pub open spec fn size_x(self) -> int {
        self.max_x - self.min_x
    }

    /// The length of the side along `y`.
    pub open spec fn size_y(self) -> int {
        self.max_y - self.min_y
    }

    /// The length of the side along `z`.
    pub open spec fn size_z(self) -> int {
        self.max_z - self.min_z
    }

    /// The largest of the three side lengths.
    pub open spec fn max_extent_spec(self) -> int {
        let a = self.size_x();
        let b = self.size_y();
        let c = self.size_z();
        if a >= b && a >= c {
            a
        } else if b >= c {
            b
        } else {
            c
        }
    }

    /// Whether the point lies in the box, the faces included.
    pub open spec fn contains_spec(self, x: int, y: int, z: int) -> bool {
        self.min_x <= x <= self.max_x && self.min_y <= y <= self.max_y && self.min_z <= z
            <= self.max_z
    }

    /// The smallest box that holds this box and the point.
    pub open spec fn expand_spec(self, x: i64, y: i64, z: i64) -> BoundingBox3D {
        BoundingBox3D {
            min_x: if x < self.min_x { x } else { self.min_x },
            min_y: if y < self.min_y { y } else { self.min_y },
            min_z: if z < self.min_z { z } else { self.min_z },
            max_x: if x > self.max_x { x } else { self.max_x },
            max_y: if y > self.max_y { y } else { self.max_y },
            max_z: if z > self.max_z { z } else { self.max_z },
        }
    }

    /// The sub-box of octant `index`: lower half in `x` when bit 0 is clear,
    /// in `y` when bit 1 is clear, in `z` when bit 2 is clear. Both halves
    /// include the centre plane.
    pub open spec fn octant_spec(self, index: u8) -> BoundingBox3D {
        BoundingBox3D {
            min_x: if upper_x(index) { self.center_x() as i64 } else { self.min_x },
            min_y: if upper_y(index) { self.center_y() as i64 } else { self.min_y },
            min_z: if upper_z(index) { self.center_z() as i64 } else { self.min_z },
            max_x: if upper_x(index) { self.max_x } else { self.center_x() as i64 },
            max_y: if upper_y(index) { self.max_y } else { self.center_y() as i64 },
            max_z: if upper_z(index) { self.max_z } else { self.center_z() as i64 },
        }
    }

    /// The octant a point is assigned to: a coordinate on the centre plane
    /// goes to the upper half.
    pub open spec fn octant_of(self, x: int, y: int, z: int) -> u8 {
        octant_index(x >= self.center_x(), y >= self.center_y(), z >= self.center_z())
    }

    /// All six bounds are coordinates.
    pub open spec fn in_limits(self) -> bool {
        &&& coord_ok(self.min_x as int)
        &&& coord_ok(self.min_y as int)
        &&& coord_ok(self.min_z as int)
        &&& coord_ok(self.max_x as int)
        &&& coord_ok(self.max_y as int)
        &&& coord_ok(self.max_z as int)
    }

    /// A box of coordinates with `min <= max` on every axis.
    pub open spec fn valid(self) -> bool {
        self.in_limits() && self.non_empty()
    }

    /// Whether all six bounds are coordinates.
    pub fn is_in_limits(&self) -> (r: bool)
        ensures
            r == self.in_limits(),
    {
        is_coord(self.min_x) && is_coord(self.min_y) && is_coord(self.min_z) && is_coord(
            self.max_x,
        ) && is_coord(self.max_y) && is_coord(self.max_z)
    }

    /// Whether the box has coordinates for bounds, the lower no greater
    /// than the upper.
    pub fn is_valid(&self) -> (r: bool)
        ensures
            r == self.valid(),
    {
        is_coord(self.min_x) && is_coord(self.min_y) && is_coord(self.min_z) && is_coord(
            self.max_x,
        ) && is_coord(self.max_y) && is_coord(self.max_z) && self.min_x <= self.max_x
            && self.min_y <= self.max_y && self.min_z <= self.max_z
    }

    /// The empty sentinel, from which a box is grown by `expand`.
    pub fn new() -> (b: BoundingBox3D)
        ensures
            b == Self::empty_sentinel(),
            forall|x: int, y: int, z: int| !b.contains_spec(x, y, z),
    {
        BoundingBox3D {
            min_x: i64::MAX,
            min_y: i64::MAX,
            min_z: i64::MAX,
            max_x: i64::MIN,
            max_y: i64::MIN,
            max_z: i64::MIN,
        }
    }

    /// Grows the box to hold the point.
    pub fn expand(&mut self, x: i64, y: i64, z: i64)
        ensures
            *final(self) == old(self).expand_spec(x, y, z),
            final(self).contains_spec(x as int, y as int, z as int),
    {
        if x < self.min_x {
            self.min_x = x;
        }
        if y < self.min_y {
            self.min_y = y;
        }
        if z < self.min_z {
            self.min_z = z;
        }
        if x > self.max_x {
            self.max_x = x;
        }
        if y > self.max_y {
            self.max_y = y;
        }
        if z > self.max_z {
            self.max_z = z;
        }
    }

    /// The centre: the midpoint on each axis, rounded toward the lower
    /// bound.
    pub fn center(&self) -> (c: [i64; 3])
        ensures
            c[0] as int == self.center_x(),
            c[1] as int == self.center_y(),
            c[2] as int == self.center_z(),
    {
        [
            midpoint(self.min_x, self.max_x),
            midpoint(self.min_y, self.max_y),
            midpoint(self.min_z, self.max_z),
        ]
    }

    /// The lengths of the three sides.
    pub fn size(&self) -> (s: [i128; 3])
        ensures
            s[0] as int == self.size_x(),
            s[1] as int == self.size_y(),
            s[2] as int == self.size_z(),
    {
        [
            self.max_x as i128 - self.min_x as i128,
            self.max_y as i128 - self.min_y as i128,
            self.max_z as i128 - self.min_z as i128,
        ]
    }

    /// The length of the longest side.
    pub fn max_extent(&self) -> (e: i128)
        ensures
            e as int == self.max_extent_spec(),
    {
        let s = self.size();
        let a: i128 = s[0];
        let b: i128 = s[1];
        let c: i128 = s[2];
        if a >= b && a >= c {
            a
        } else if b >= c {
            b
        } else {
            c
        }
    }

    /// Whether the point lies in the box, the faces included.
    pub fn contains(&self, x: i64, y: i64, z: i64) -> (r: bool)
        ensures
            r == self.contains_spec(x as int, y as int, z as int),
    {
        x >= self.min_x && x <= self.max_x && y >= self.min_y && y <= self.max_y && z
            >= self.min_z && z <= self.max_z
    }

    /// Split into 8 octants.
    pub fn octant(&self, index: u8) -> (b: BoundingBox3D)
        ensures
            b == self.octant_spec(index),
    {
        let c = self.center();
        let cx: i64 = c[0];
        let cy: i64 = c[1];
        let cz: i64 = c[2];
        let ux: bool = index % 2 == 1;
        let uy: bool = (index / 2) % 2 == 1;
        let uz: bool = (index / 4) % 2 == 1;
        BoundingBox3D {
            min_x: if ux { cx } else { self.min_x },
            min_y: if uy { cy } else { self.min_y },
            min_z: if uz { cz } else { self.min_z },
            max_x: if ux { self.max_x } else { cx },
            max_y: if uy { self.max_y } else { cy },
            max_z: if uz { self.max_z } else { cz },
        }
    }
}

/// The centre of a box lies between its bounds, and so do the bounds of
/// every octant: an octant of a non-empty box is a non-empty box inside it.
pub proof fn lemma_octant_inside(b: BoundingBox3D, index: u8)
    requires
        b.non_empty(),
    ensures
        b.octant_spec(index).non_empty(),
        b.min_x <= b.octant_spec(index).min_x,
        b.octant_spec(index).max_x <= b.max_x,
        b.min_y <= b.octant_spec(index).min_y,
        b.octant_spec(index).max_y <= b.max_y,
        b.min_z <= b.octant_spec(index).min_z,
        b.octant_spec(index).max_z <= b.max_z,
{
}

/// An octant of a valid box is a valid box.
pub proof fn lemma_octant_valid(b: BoundingBox3D, index: u8)
    requires
        b.valid(),
    ensures
        b.octant_spec(index).valid(),
{
}

/// An octant of a box within the coordinate limit lies within it too.
pub proof fn lemma_octant_in_limits(b: BoundingBox3D, index: u8)
    requires
        b.in_limits(),
    ensures
        b.octant_spec(index).in_limits(),
{
}

/// A point of a non-empty box lies in the octant it is assigned to.
pub proof fn lemma_octant_of_contains(b: BoundingBox3D, x: int, y: int, z: int)
    requires
        b.non_empty(),
        b.contains_spec(x, y, z),
    ensures
        b.octant_of(x, y, z) < 8,
        b.octant_spec(b.octant_of(x, y, z)).contains_spec(x, y, z),
{
}

/// Off the three centre planes, a point of a non-empty box lies in exactly
/// one of the eight octants: the one it is assigned to.
pub proof fn lemma_octant_partition(b: BoundingBox3D, x: int, y: int, z: int, m: u8)
    requires
        b.non_empty(),
        b.contains_spec(x, y, z),
        x != b.center_x(),
        y != b.center_y(),
        z != b.center_z(),
        m < 8,
    ensures
        b.octant_spec(m).contains_spec(x, y, z) <==> m == b.octant_of(x, y, z),
{
}

/// On a centre plane the point lies in the octants on both sides of it:
/// octant `m` contains the point exactly when, on every axis, the point is
/// on the octant's side of the centre or on the centre itself.
pub proof fn lemma_octant_contains(b: BoundingBox3D, x: int, y: int, z: int, m: u8)
    requires
        b.non_empty(),
        b.contains_spec(x, y, z),
    ensures
        b.octant_spec(m).contains_spec(x, y, z) <==> {
            &&& (if upper_x(m) { x >= b.center_x() } else { x <= b.center_x() })
            &&& (if upper_y(m) { y >= b.center_y() } else { y <= b.center_y() })
            &&& (if upper_z(m) { z >= b.center_z() } else { z <= b.center_z() })
        },
{
}

/// A point with its colour, intensity and class. Coordinates are in
/// millionths of a unit.
#[derive(Debug, Clone, Copy, PartialEq, Eq, Structural)]
pub struct PointRecord {
    pub x: i64,
    pub y: i64,
    pub z: i64,
    pub r: u8,
    pub g: u8,
    pub b: u8,
    pub intensity: u16,
    pub classification: u8,
}

impl PointRecord {
    /// The three coordinates are within the coordinate limit.
    pub open spec fn valid(self) -> bool {
        coord_ok(self.x as int) && coord_ok(self.y as int) && coord_ok(self.z as int)
    }

    /// Whether the point lies within the coordinate limit.
    pub fn is_valid(&self) -> (r: bool)
        ensures
            r == self.valid(),
    {
        is_coord(self.x) && is_coord(self.y) && is_coord(self.z)
    }
}

/// Metadata about a loaded point cloud.
#[derive(Debug, Clone)]
pub struct PointcloudMetadata {
    pub id: String,
    pub file_path: String,
    pub file_name: String,
    /// `"LAS"` or `"LAZ"`.
    pub format: String,
    pub total_points: u64,
    pub bounds: BoundingBox3D,
    pub has_color: bool,
    pub has_intensity: bool,
    pub has_classification: bool,
    pub point_record_format: u8,
    /// Such as `"1.4"`.
    pub las_version: String,
}

/// An octree node as a client sees it.
#[derive(Debug, Clone)]
pub struct OctreeNodeInfo {
    pub node_id: String,
    pub bounds: BoundingBox3D,
    pub level: u8,
    pub point_count: u32,
    pub has_children: bool,
}

/// The points of one node, laid out for a renderer. Positions are relative
/// to `center`; positions, `center` and `spacing` are in millionths.
#[derive(Debug, Clone)]
pub struct PointChunk {
    pub node_id: String,
    pub center: [i64; 3],
    pub level: u8,
    pub spacing: u64,
    /// `x, y, z` of each point in turn.
    pub positions: Vec<i64>,
    /// `r, g, b` of each point in turn.
    pub colors: Vec<u8>,
    pub intensities: Vec<u16>,
    pub classifications: Vec<u8>,
    pub point_count: u32,
}

/// The camera of one frame. `position` and `target` are coordinates;
/// `half_fov_tan` is the tangent of half the vertical field of view, and
/// `aspect` and `screen_height` (pixels) are plain numbers; all five are in
/// millionths.
#[derive(Debug, Clone, Copy)]
pub struct CameraState {
    pub position: [i64; 3],
    pub target: [i64; 3],
    pub half_fov_tan: i64,
    pub aspect: i64,
    pub screen_height: i64,
}

/// Whether each of the three doubles is finite and within the coordinate
/// limit.
pub open spec fn triple_ok(bits: [u64; 3]) -> bool {
    scaled_ok(1, bits[0]) && scaled_ok(1, bits[1]) && scaled_ok(1, bits[2])
}

fn triple_from_doubles(bits: &[u64; 3]) -> (r: Option<[i64; 3]>)
    ensures
        match r {
            Some(t) => triple_ok(*bits) && t[0] == micro_of(bits[0]) && t[1] == micro_of(bits[1])
                && t[2] == micro_of(bits[2]),
            None => !triple_ok(*bits),
        },
{
    match (micro_from_bits(bits[0]), micro_from_bits(bits[1]), micro_from_bits(bits[2])) {
        (Some(a), Some(b), Some(c)) => Some([a, b, c]),
        _ => None,
    }
}

impl CameraState {
    /// The camera whose numbers are the given doubles (as bit patterns),
    /// each rounded to millionths; `None` where one of them is not finite
    /// or is beyond the coordinate limit.
    pub fn from_doubles(
        position: &[u64; 3],
        target: &[u64; 3],
        half_fov_tan: u64,
        aspect: u64,
        screen_height: u64,
    ) -> (r: Option<CameraState>)
        ensures
            match r {
                Some(c) => {
                    &&& c.valid()
                    &&& c.position[0] == micro_of(position[0])
                    &&& c.position[1] == micro_of(position[1])
                    &&& c.position[2] == micro_of(position[2])
                    &&& c.target[0] == micro_of(target[0])
                    &&& c.target[1] == micro_of(target[1])
                    &&& c.target[2] == micro_of(target[2])
                    &&& c.half_fov_tan == micro_of(half_fov_tan)
                    &&& c.aspect == micro_of(aspect)
                    &&& c.screen_height == micro_of(screen_height)
                },
                None => !(triple_ok(*position) && triple_ok(*target) && scaled_ok(1, half_fov_tan)
                    && scaled_ok(1, aspect) && scaled_ok(1, screen_height)),
            },
    {
        let p = match triple_from_doubles(position) {
            Some(p) => p,
            None => {
                return None;
            },
        };
        let t = match triple_from_doubles(target) {
            Some(t) => t,
            None => {
                return None;
            },
        };
        match (micro_from_bits(half_fov_tan), micro_from_bits(aspect), micro_from_bits(screen_height)) {
            (Some(tan), Some(a), Some(h)) => Some(
                CameraState { position: p, target: t, half_fov_tan: tan, aspect: a, screen_height: h },
            ),
            _ => None,
        }
    }

    /// The position is a point of coordinates within the coordinate limit.
    pub open spec fn valid(self) -> bool {
        coord_ok(self.position[0] as int) && coord_ok(self.position[1] as int) && coord_ok(
            self.position[2] as int,
        )
    }

    /// Whether the position lies within the coordinate limit.
    pub fn is_valid(&self) -> (r: bool)
        ensures
            r == self.valid(),
    {
        is_coord(self.position[0]) && is_coord(self.position[1]) && is_coord(self.position[2])
    }
}

/// How far the indexing of a point cloud has come. `progress` runs from 0
/// to 1_000_000 (millionths).
#[derive(Debug, Clone)]
pub struct IndexProgress {
    pub progress: u32,
    pub phase: String,
    pub points_processed: u64,
    pub total_points: u64,
}

} // verus!
