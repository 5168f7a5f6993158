//! The octree: nodes that own their children, built by inserting points
//! one at a time and then giving every internal node a sample of its
//! children's points.

use vstd::prelude::*;
use vstd::string::StringExecFns;
use crate::fixed::floor_sqrt;
use crate::fixed::isqrt;
use crate::types::BoundingBox3D;
use crate::types::OctreeNodeInfo;
use crate::types::PointChunk;
use crate::types::PointRecord;
use crate::types::lemma_octant_in_limits;

verus! {

/// A leaf that holds this many points splits on the next insertion,
/// unless it is at `MAX_DEPTH`.
pub const MAX_POINTS_PER_LEAF: usize = 65_536;

/// The level below which no node is created.
pub const MAX_DEPTH: u8 = 12;

/// An internal node keeps every `SUBSAMPLE_RATIO`-th point of each child.
pub const SUBSAMPLE_RATIO: usize = 8;

/// The decimal digit of an octant index.
pub open spec fn digit(k: int) -> char {
    if k == 0 {
        '0'
    } else if k == 1 {
        '1'
    } else if k == 2 {
        '2'
    } else if k == 3 {
        '3'
    } else if k == 4 {
        '4'
    } else if k == 5 {
        '5'
    } else if k == 6 {
        '6'
    } else {
        '7'
    }
}

/// Every `SUBSAMPLE_RATIO`-th point of `pts`: those at the indices 0, 8,
/// 16 and so on.
pub open spec fn every_nth(pts: Seq<PointRecord>) -> Seq<PointRecord> {
    Seq::new(((pts.len() + 7) / 8) as nat, |i: int| pts[8 * i])
}

/// The points of `pts` that a box assigns to its octant `k`, in their
/// order.
pub open spec fn routed(pts: Seq<PointRecord>, b: BoundingBox3D, k: int) -> Seq<PointRecord>
    decreases pts.len(),
{
    if pts.len() == 0 {
        Seq::empty()
    } else {
        let rest = routed(pts.drop_last(), b, k);
        let p = pts.last();
        if b.octant_of(p.x as int, p.y as int, p.z as int) == k {
            rest.push(p)
        } else {
            rest
        }
    }
}

/// Every `SUBSAMPLE_RATIO`-th point of each of the first `k` children, in
/// the order of the children.
pub open spec fn sample_of(children: Seq<Option<Box<OctreeNode>>>, k: int) -> Seq<PointRecord>
    decreases k,
{
    if k <= 0 {
        Seq::empty()
    } else {
        sample_of(children, k - 1) + (match children[k - 1] {
            Some(c) => every_nth(c.points@),
            None => Seq::empty(),
        })
    }
}

/// How many of `pts` a box assigns to its first `k` octants.
pub open spec fn routed_total(pts: Seq<PointRecord>, b: BoundingBox3D, k: int) -> int
    decreases k,
{
    if k <= 0 {
        0
    } else {
        routed_total(pts, b, k - 1) + routed(pts, b, k - 1).len()
    }
}

/// A node of the octree.
pub struct OctreeNode {
    pub node_id: String,
    pub bounds: BoundingBox3D,
    pub level: u8,
    pub points: Vec<PointRecord>,
    pub children: [Option<Box<OctreeNode>>; 8],
}

impl OctreeNode {
    /// The child in slot `k`.
    pub open spec fn child(self, k: int) -> Option<OctreeNode> {
        match self.children@[k] {
            Some(c) => Some(*c),
            None => None,
        }
    }

    /// Every child slot is empty.
    pub open spec fn is_leaf_spec(self) -> bool {
        forall|k: int| 0 <= k < 8 ==> (#[trigger] self.child(k)) is None
    }

    /// The node and all below it are well formed: levels count up from
    /// this node's and stay within `MAX_DEPTH`, an id is the parent's id
    /// and the octant's digit, a child's box is the octant of its parent's,
    /// and every point is within the coordinate limit.
    pub open spec fn wf(self) -> bool
        decreases MAX_DEPTH - self.level,
    {
        &&& self.level <= MAX_DEPTH
        &&& self.node_id@.len() == self.level + 1
        &&& self.bounds.in_limits()
        &&& self.points@.len() <= u32::MAX
        &&& forall|i: int| 0 <= i < self.points@.len() ==> (#[trigger] self.points@[i]).valid()
        &&& forall|k: int|
            0 <= k < 8 ==> match #[trigger] self.child(k) {
                Some(c) => {
                    &&& self.level < MAX_DEPTH
                    &&& c.level == self.level + 1
                    &&& c.node_id@ == self.node_id@.push(digit(k))
                    &&& c.bounds == self.bounds.octant_spec(k as u8)
                    &&& c.wf()
                },
                None => true,
            }
    }

    /// The points that an internal node keeps of its first `k` children:
    /// every `SUBSAMPLE_RATIO`-th point of each, in the order of the
    /// children.
    pub open spec fn sample_upto(self, k: int) -> Seq<PointRecord> {
        sample_of(self.children@, k)
    }

    /// The node is the tree of the points `pts`, taken in their order: a
    /// leaf holds `pts` itself, and is within capacity unless it is at
    /// `MAX_DEPTH`; an internal node stands for more points than a leaf may
    /// hold, and has a child exactly for each octant that some point is
    /// assigned to, which is the tree of those points. An internal node
    /// holds no points of its own before sampling (`sampled` false), and
    /// the sample of its children after it.
    pub open spec fn built(self, pts: Seq<PointRecord>, sampled: bool) -> bool
        decreases MAX_DEPTH - self.level,
    {
        if self.is_leaf_spec() {
            self.points@ == pts && (pts.len() <= MAX_POINTS_PER_LEAF || self.level >= MAX_DEPTH)
        } else {
            &&& self.points@ == (if sampled {
                self.sample_upto(8)
            } else {
                Seq::empty()
            })
            &&& pts.len() > MAX_POINTS_PER_LEAF
            &&& self.level < MAX_DEPTH
            &&& forall|k: int|
                0 <= k < 8 ==> match #[trigger] self.child(k) {
                    Some(c) => {
                        &&& c.level == self.level + 1
                        &&& routed(pts, self.bounds, k).len() > 0
                        &&& c.built(routed(pts, self.bounds, k), sampled)
                    },
                    None => routed(pts, self.bounds, k).len() == 0,
                }
        }
    }

    /// The children are the trees of the points of `pts` that each octant
    /// is assigned, and there is a child exactly where there are points.
    pub open spec fn children_built(self, pts: Seq<PointRecord>, sampled: bool) -> bool {
        forall|k: int|
            0 <= k < 8 ==> match #[trigger] self.child(k) {
                Some(c) => {
                    &&& c.level == self.level + 1
                    &&& routed(pts, self.bounds, k).len() > 0
                    &&& c.built(routed(pts, self.bounds, k), sampled)
                },
                None => routed(pts, self.bounds, k).len() == 0,
            }
    }

    /// A leaf without points.
    pub fn new(node_id: String, bounds: BoundingBox3D, level: u8) -> (n: OctreeNode)
        ensures
            n.node_id == node_id,
            n.bounds == bounds,
            n.level == level,
            n.points@.len() == 0,
            n.is_leaf_spec(),
    {
        OctreeNode {
            node_id,
            bounds,
            level,
            points: Vec::new(),
            children: [None, None, None, None, None, None, None, None],
        }
    }

    /// Whether every child slot is empty.
    pub fn is_leaf(&self) -> (r: bool)
        ensures
            r == self.is_leaf_spec(),
    {
        let mut k: usize = 0;
        while k < 8
            invariant
                k <= 8,
                forall|j: int| 0 <= j < k ==> (#[trigger] self.child(j)) is None,
            decreases 8 - k,
        {
            if self.children[k].is_some() {
                assert(self.child(k as int) is Some);
                return false;
            }
            k = k + 1;
        }
        true
    }

    /// Whether some child slot is taken.
    pub fn has_children(&self) -> (r: bool)
        ensures
            r == !self.is_leaf_spec(),
    {
        !self.is_leaf()
    }

    /// How many points the node holds itself.
    pub fn point_count(&self) -> (n: u32)
        requires
            self.points@.len() <= u32::MAX,
        ensures
            n == self.points@.len(),
    {
        self.points.len() as u32
    }
}

/// The text of an octant's digit.
fn digit_str(octant: u8) -> (s: &'static str)
    requires
        octant < 8,
    ensures
        s@ == seq![digit(octant as int)],
{
    proof {
        reveal_strlit("0");
        reveal_strlit("1");
        reveal_strlit("2");
        reveal_strlit("3");
        reveal_strlit("4");
        reveal_strlit("5");
        reveal_strlit("6");
        reveal_strlit("7");
    }
    let s = match octant {
        0 => "0",
        1 => "1",
        2 => "2",
        3 => "3",
        4 => "4",
        5 => "5",
        6 => "6",
        _ => "7",
    };
    assert(s@ =~= seq![digit(octant as int)]);
    s
}

/// The octant of `bounds` that a point is assigned to: bit 0 set when
/// `x` is at or above the centre, bit 1 for `y`, bit 2 for `z`.
pub fn get_octant(bounds: &BoundingBox3D, x: i64, y: i64, z: i64) -> (octant: u8)
    ensures
        octant == bounds.octant_of(x as int, y as int, z as int),
        octant < 8,
{
    let c = bounds.center();
    let mut octant: u8 = 0;
    if x >= c[0] {
        octant = octant + 1;
    }
    if y >= c[1] {
        octant = octant + 2;
    }
    if z >= c[2] {
        octant = octant + 4;
    }
    octant
}

/// Creates the child in slot `octant` where there is none: an empty leaf
/// one level down, with the octant's box and the id extended by the
/// octant's digit.
pub fn ensure_child(node: &mut OctreeNode, octant: u8)
    requires
        octant < 8,
        old(node).wf(),
        old(node).level < MAX_DEPTH,
    ensures
        final(node).wf(),
        final(node).node_id == old(node).node_id,
        final(node).bounds == old(node).bounds,
        final(node).level == old(node).level,
        final(node).points == old(node).points,
        forall|k: int| 0 <= k < 8 && k != octant ==> final(node).child(k) == old(node).child(k),
        final(node).child(octant as int) is Some,
        old(node).child(octant as int) is Some ==> final(node).child(octant as int) == old(node).child(octant as int),
        old(node).child(octant as int) is None ==> {
            let c = final(node).child(octant as int).unwrap();
            &&& c.is_leaf_spec()
            &&& c.points@.len() == 0
            &&& c.level == old(node).level + 1
        },
{
    if node.children[octant as usize].is_none() {
        let child_bounds = node.bounds.octant(octant);
        let child_id = node.node_id.clone().concat(digit_str(octant));
        let child = OctreeNode::new(child_id, child_bounds, node.level + 1);
        proof {
            lemma_octant_in_limits(node.bounds, octant);
            assert(child.node_id@ =~= node.node_id@.push(digit(octant as int)));
            assert(child.wf());
        }
        node.children[octant as usize] = Some(Box::new(child));
        proof {
            assert forall|k: int| 0 <= k < 8 && k != octant implies node.child(k) == old(node).child(k) by {}
            assert(node.child(octant as int) == Some(child));
        }
    }
}

/// What one more point does to the points of an octant.
pub proof fn lemma_routed_push(pts: Seq<PointRecord>, p: PointRecord, b: BoundingBox3D, k: int)
    ensures
        routed(pts.push(p), b, k) == (if b.octant_of(p.x as int, p.y as int, p.z as int) == k {
            routed(pts, b, k).push(p)
        } else {
            routed(pts, b, k)
        }),
{
    assert(pts.push(p).drop_last() =~= pts);
}

/// An octant is assigned no more points than there are, each of them one
/// of the points.
pub proof fn lemma_routed_subset(pts: Seq<PointRecord>, b: BoundingBox3D, k: int)
    ensures
        routed(pts, b, k).len() <= pts.len(),
        forall|i: int|
            0 <= i < routed(pts, b, k).len() ==> {
                let p = #[trigger] routed(pts, b, k)[i];
                pts.contains(p) && b.octant_of(p.x as int, p.y as int, p.z as int) == k
            },
    decreases pts.len(),
{
    if pts.len() > 0 {
        lemma_routed_subset(pts.drop_last(), b, k);
        let rest = routed(pts.drop_last(), b, k);
        assert forall|i: int| 0 <= i < routed(pts, b, k).len() implies {
            let p = #[trigger] routed(pts, b, k)[i];
            pts.contains(p) && b.octant_of(p.x as int, p.y as int, p.z as int) == k
        } by {
            let p = routed(pts, b, k)[i];
            if i < rest.len() {
                assert(rest[i] == p);
                assert(pts.drop_last().contains(p));
                let j = choose|j: int| 0 <= j < pts.drop_last().len() && pts.drop_last()[j] == p;
                assert(pts[j] == p);
            } else {
                assert(p == pts.last());
                assert(pts[pts.len() - 1] == p);
            }
        }
    }
}

proof fn lemma_routed_total_push(pts: Seq<PointRecord>, p: PointRecord, b: BoundingBox3D, k: int)
    requires
        0 <= k <= 8,
    ensures
        routed_total(pts.push(p), b, k) == routed_total(pts, b, k) + (if b.octant_of(
            p.x as int,
            p.y as int,
            p.z as int,
        ) < k {
            1int
        } else {
            0int
        }),
    decreases k,
{
    if k > 0 {
        lemma_routed_total_push(pts, p, b, k - 1);
        lemma_routed_push(pts, p, b, k - 1);
    }
}

/// The eight octants share the points out among them: every point is
/// assigned to exactly one.
pub proof fn lemma_routed_partition(pts: Seq<PointRecord>, b: BoundingBox3D)
    ensures
        routed_total(pts, b, 8) == pts.len(),
    decreases pts.len(),
{
    if pts.len() == 0 {
        reveal_with_fuel(routed_total, 9);
    } else {
        lemma_routed_partition(pts.drop_last(), b);
        lemma_routed_total_push(pts.drop_last(), pts.last(), b, 8);
        assert(pts.drop_last().push(pts.last()) =~= pts);
    }
}

/// The sample of a well-formed node's children consists of valid points,
/// and is no longer than the children's points taken together.
proof fn lemma_sample_props(node: OctreeNode, pts: Seq<PointRecord>, k: int)
    requires
        node.wf(),
        !node.is_leaf_spec(),
        0 <= k <= 8,
        forall|j: int|
            0 <= j < 8 ==> match #[trigger] node.child(j) {
                Some(c) => c.points@.len() <= routed(pts, node.bounds, j).len(),
                None => true,
            },
    ensures
        node.sample_upto(k).len() <= routed_total(pts, node.bounds, k),
        forall|i: int| 0 <= i < node.sample_upto(k).len() ==> (#[trigger] node.sample_upto(k)[i]).valid(),
    decreases k,
{
    if k > 0 {
        lemma_sample_props(node, pts, k - 1);
        match node.child(k - 1) {
            Some(c) => {
                assert(c.wf());
                let e = every_nth(c.points@);
                assert(e.len() <= c.points@.len());
                assert forall|i: int| 0 <= i < e.len() implies (#[trigger] e[i]).valid() by {
                    assert(e[i] == c.points@[8 * i]);
                }
            },
            None => {},
        }
    }
}

/// A tree of `pts` holds at most `pts.len()` points in its top node.
pub proof fn lemma_built_count(node: OctreeNode, pts: Seq<PointRecord>)
    requires
        node.wf(),
        node.built(pts, true),
    ensures
        node.points@.len() <= pts.len(),
    decreases MAX_DEPTH - node.level,
{
    if !node.is_leaf_spec() {
        assert forall|j: int| 0 <= j < 8 implies match #[trigger] node.child(j) {
            Some(c) => c.points@.len() <= routed(pts, node.bounds, j).len(),
            None => true,
        } by {
            match node.child(j) {
                Some(c) => {
                    lemma_built_count(c, routed(pts, node.bounds, j));
                },
                None => {},
            }
        }
        lemma_sample_props(node, pts, 8);
        lemma_routed_partition(pts, node.bounds);
    }
}

/// Appends every `SUBSAMPLE_RATIO`-th point of `src`.
fn push_sample(acc: &mut Vec<PointRecord>, src: &Vec<PointRecord>)
    ensures
        final(acc)@ == old(acc)@ + every_nth(src@),
{
    let n: usize = src.len();
    let mut i: usize = 0;
    let ghost mut t: int = 0;
    assert(acc@ =~= old(acc)@ + Seq::new(0nat, |m: int| src@[8 * m]));
    while i < n
        invariant
            n == src@.len(),
            i <= n,
            0 <= t,
            i < n ==> i == 8 * t,
            i == n ==> t == (n + 7) / 8,
            acc@ == old(acc)@ + Seq::new(t as nat, |m: int| src@[8 * m]),
        decreases n - i,
    {
        acc.push(src[i]);
        proof {
            t = t + 1;
            assert(acc@ =~= old(acc)@ + Seq::new(t as nat, |m: int| src@[8 * m]));
        }
        if n - i <= SUBSAMPLE_RATIO {
            i = n;
        } else {
            i = i + SUBSAMPLE_RATIO;
        }
    }
}

/// Gives every internal node below and at `node` the sample of its
/// children's points, the children first.
#[verifier::rlimit(40)]
fn build_lod(node: &mut OctreeNode, Ghost(pts): Ghost<Seq<PointRecord>>)
    requires
        old(node).wf(),
        old(node).built(pts, false),
        pts.len() <= u32::MAX,
    ensures
        final(node).wf(),
        final(node).built(pts, true),
        final(node).node_id == old(node).node_id,
        final(node).bounds == old(node).bounds,
        final(node).level == old(node).level,
    decreases MAX_DEPTH - old(node).level,
{
    let ghost b = node.bounds;
    let mut k: usize = 0;
    while k < 8
        invariant
            k <= 8,
            b == node.bounds,
            pts.len() <= u32::MAX,
            old(node).wf(),
            old(node).built(pts, false),
            node.wf(),
            node.node_id == old(node).node_id,
            node.bounds == old(node).bounds,
            node.level == old(node).level,
            node.points == old(node).points,
            forall|j: int|
                0 <= j < 8 ==> ((#[trigger] node.child(j)) is Some) == (old(node).child(j) is Some),
            forall|j: int| k <= j < 8 ==> #[trigger] node.child(j) == old(node).child(j),
            forall|j: int|
                0 <= j < k ==> match #[trigger] node.child(j) {
                    Some(c) => c.level == node.level + 1 && c.built(routed(pts, b, j), true),
                    None => true,
                },
        decreases 8 - k,
    {
        let ghost mid = *node;
        proof {
            lemma_routed_subset(pts, b, k as int);
            assert(old(node).child(k as int) == mid.child(k as int));
            if mid.child(k as int) is Some {
                assert(!old(node).is_leaf_spec());
            }
        }
        match &mut node.children[k] {
            Some(c) => {
                build_lod(c, Ghost(routed(pts, b, k as int)));
            },
            None => {},
        }
        proof {
            assert forall|j: int| 0 <= j < 8 && j != k implies node.child(j) == mid.child(j) by {}
            assert((node.child(k as int) is Some) == (mid.child(k as int) is Some));
            assert forall|j: int| 0 <= j < 8 implies ((#[trigger] node.child(j)) is Some) == (old(node).child(j) is Some) by {
                if j != k {
                    assert(node.child(j) == mid.child(j));
                }
            }
            assert forall|j: int| k + 1 <= j < 8 implies #[trigger] node.child(j) == old(node).child(j) by {
                assert(node.child(j) == mid.child(j));
            }
            assert forall|j: int| 0 <= j < k + 1 implies match #[trigger] node.child(j) {
                Some(c) => c.level == node.level + 1 && c.built(routed(pts, b, j), true),
                None => true,
            } by {
                if j != k {
                    assert(node.child(j) == mid.child(j));
                }
            }
            assert forall|j: int| 0 <= j < 8 implies match #[trigger] node.child(j) {
                Some(c) => {
                    &&& node.level < MAX_DEPTH
                    &&& c.level == node.level + 1
                    &&& c.node_id@ == node.node_id@.push(digit(j))
                    &&& c.bounds == node.bounds.octant_spec(j as u8)
                    &&& c.wf()
                },
                None => true,
            } by {
                if j != k {
                    assert(node.child(j) == mid.child(j));
                } else {
                    assert(mid.child(j) is Some ==> node.child(j) is Some);
                }
            }
        }
        k = k + 1;
    }
    proof {
        assert(old(node).is_leaf_spec() == node.is_leaf_spec()) by {
            if old(node).is_leaf_spec() {
                assert forall|j: int| 0 <= j < 8 implies (#[trigger] node.child(j)) is None by {
                    assert(old(node).child(j) is None);
                }
            } else {
                let j = choose|j: int| 0 <= j < 8 && (#[trigger] old(node).child(j)) is Some;
                assert(node.child(j) is Some);
            }
        }
    }
    if node.has_children() && node.points.len() == 0 {
        let mut subsample: Vec<PointRecord> = Vec::new();
        let mut j: usize = 0;
        assert(subsample@ =~= node.sample_upto(0));
        while j < 8
            invariant
                j <= 8,
                subsample@ == node.sample_upto(j as int),
            decreases 8 - j,
        {
            match &node.children[j] {
                Some(c) => {
                    push_sample(&mut subsample, &c.points);
                },
                None => {
                    assert(subsample@ + Seq::<PointRecord>::empty() =~= subsample@);
                },
            }
            j = j + 1;
        }
        proof {
            assert forall|j: int| 0 <= j < 8 implies match #[trigger] node.child(j) {
                Some(c) => c.points@.len() <= routed(pts, node.bounds, j).len(),
                None => true,
            } by {
                match node.child(j) {
                    Some(c) => {
                        lemma_built_count(c, routed(pts, node.bounds, j));
                    },
                    None => {},
                }
            }
            lemma_sample_props(*node, pts, 8);
            lemma_routed_partition(pts, node.bounds);
        }
        let ghost mid = *node;
        node.points = subsample;
        proof {
            assert forall|j: int| 0 <= j < 8 implies node.child(j) == mid.child(j) by {}
            assert(node.sample_upto(8) == mid.sample_upto(8));
            assert(!old(node).is_leaf_spec());
            assert forall|j: int| 0 <= j < 8 implies match #[trigger] node.child(j) {
                Some(c) => {
                    &&& node.level < MAX_DEPTH
                    &&& c.level == node.level + 1
                    &&& c.node_id@ == node.node_id@.push(digit(j))
                    &&& c.bounds == node.bounds.octant_spec(j as u8)
                    &&& c.wf()
                },
                None => true,
            } by {
                assert(node.child(j) == mid.child(j));
            }
            assert(node.wf());
            assert forall|j: int| 0 <= j < 8 implies match #[trigger] node.child(j) {
                Some(c) => {
                    &&& c.level == node.level + 1
                    &&& routed(pts, node.bounds, j).len() > 0
                    &&& c.built(routed(pts, node.bounds, j), true)
                },
                None => routed(pts, node.bounds, j).len() == 0,
            } by {
                assert(node.child(j) == mid.child(j));
                assert((mid.child(j) is Some) == (old(node).child(j) is Some));
            }
        }
    } else {
        proof {
            assert(node.is_leaf_spec()) by {
                if !node.is_leaf_spec() {
                    assert(!old(node).is_leaf_spec());
                    assert(old(node).points@.len() == 0);
                }
            }
            assert(old(node).is_leaf_spec());
            assert(node.points@ == pts);
        }
    }
}

/// Inserts a point into the child whose octant holds it, creating the
/// child where there is none.
#[verifier::rlimit(40)]
fn insert_into_child(node: &mut OctreeNode, point: PointRecord, Ghost(pts): Ghost<Seq<PointRecord>>)
    requires
        old(node).wf(),
        old(node).level < MAX_DEPTH,
        old(node).children_built(pts, false),
        point.valid(),
        pts.len() < u32::MAX,
    ensures
        final(node).wf(),
        final(node).children_built(pts.push(point), false),
        !final(node).is_leaf_spec(),
        final(node).node_id == old(node).node_id,
        final(node).bounds == old(node).bounds,
        final(node).level == old(node).level,
        final(node).points == old(node).points,
    decreases MAX_DEPTH - old(node).level, 0nat,
{
    let octant = get_octant(&node.bounds, point.x, point.y, point.z);
    ensure_child(node, octant);
    let ghost mid = *node;
    let ghost b = node.bounds;
    let ghost sub = routed(pts, b, octant as int);
    proof {
        lemma_routed_subset(pts, b, octant as int);
        let c = mid.child(octant as int).unwrap();
        if old(node).child(octant as int) is None {
            assert(sub.len() == 0);
            assert(c.points@ =~= sub);
            assert(c.built(sub, false));
        }
    }
    match &mut node.children[octant as usize] {
        Some(c) => {
            insert_into_node(c, point, Ghost(sub));
        },
        None => {},
    }
    proof {
        assert(node.child(octant as int) is Some);
        assert forall|k: int| 0 <= k < 8 && k != octant implies node.child(k) == mid.child(k) by {}
        assert forall|k: int| 0 <= k < 8 implies match #[trigger] node.child(k) {
            Some(c) => {
                &&& c.level == node.level + 1
                &&& routed(pts.push(point), node.bounds, k).len() > 0
                &&& c.built(routed(pts.push(point), node.bounds, k), false)
            },
            None => routed(pts.push(point), node.bounds, k).len() == 0,
        } by {
            lemma_routed_push(pts, point, b, k);
            if k != octant {
                assert(node.child(k) == old(node).child(k));
            }
        }
        assert forall|k: int| 0 <= k < 8 implies match #[trigger] node.child(k) {
            Some(c) => {
                &&& node.level < MAX_DEPTH
                &&& c.level == node.level + 1
                &&& c.node_id@ == node.node_id@.push(digit(k))
                &&& c.bounds == node.bounds.octant_spec(k as u8)
                &&& c.wf()
            },
            None => true,
        } by {
            if k != octant {
                assert(node.child(k) == mid.child(k));
            } else {
                assert(mid.child(k) is Some);
            }
        }
    }
}

/// Inserts a point into the subtree of `node`, which holds `pts`.
#[verifier::rlimit(40)]
fn insert_into_node(node: &mut OctreeNode, point: PointRecord, Ghost(pts): Ghost<Seq<PointRecord>>)
    requires
        old(node).wf(),
        old(node).built(pts, false),
        point.valid(),
        pts.len() < u32::MAX,
    ensures
        final(node).wf(),
        final(node).built(pts.push(point), false),
        final(node).node_id == old(node).node_id,
        final(node).bounds == old(node).bounds,
        final(node).level == old(node).level,
    decreases MAX_DEPTH - old(node).level, 1nat,
{
    let leaf = node.is_leaf();
    // A leaf under capacity takes the point.
    if leaf && node.points.len() < MAX_POINTS_PER_LEAF {
        node.points.push(point);
        proof {
            assert forall|k: int| 0 <= k < 8 implies node.child(k) == old(node).child(k) by {}
            assert(node.points@ =~= pts.push(point));
        }
        return;
    }
    // A node at the depth limit takes it whatever its size.
    if node.level >= MAX_DEPTH {
        proof {
            assert forall|k: int| 0 <= k < 8 implies (#[trigger] node.child(k)) is None by {}
        }
        node.points.push(point);
        proof {
            assert forall|k: int| 0 <= k < 8 implies node.child(k) == old(node).child(k) by {}
            assert(node.points@ =~= pts.push(point));
        }
        return;
    }
    // A full leaf hands its points down before the new one follows.
    if leaf && node.points.len() > 0 {
        let mut existing: Vec<PointRecord> = Vec::new();
        std::mem::swap(&mut existing, &mut node.points);
        proof {
            assert(existing@ == pts);
            assert forall|k: int| 0 <= k < 8 implies node.child(k) == old(node).child(k) by {}
            assert(pts.take(0) =~= Seq::<PointRecord>::empty());
            assert(node.wf());
        }
        let mut j: usize = 0;
        while j < existing.len()
            invariant
                j <= existing@.len(),
                existing@ == pts,
                pts.len() < u32::MAX,
                forall|i: int| 0 <= i < pts.len() ==> (#[trigger] pts[i]).valid(),
                node.wf(),
                node.level < MAX_DEPTH,
                node.points@.len() == 0,
                node.node_id == old(node).node_id,
                node.bounds == old(node).bounds,
                node.level == old(node).level,
                node.children_built(pts.take(j as int), false),
            decreases existing@.len() - j,
        {
            let p = existing[j];
            proof {
                assert(pts.take(j as int).push(p) =~= pts.take(j + 1));
            }
            insert_into_child(node, p, Ghost(pts.take(j as int)));
            j = j + 1;
        }
        proof {
            assert(pts.take(j as int) =~= pts);
        }
    }
    insert_into_child(node, point, Ghost(pts));
    assert(node.points@ =~= Seq::<PointRecord>::empty());
}

/// The node reached from `root` by taking the child slots of `path` in
/// turn.
pub open spec fn node_at(root: OctreeNode, path: Seq<u8>) -> Option<OctreeNode>
    decreases path.len(),
{
    if path.len() == 0 {
        Some(root)
    } else {
        match node_at(root, path.drop_last()) {
            Some(parent) => if path.last() < 8 {
                parent.child(path.last() as int)
            } else {
                None
            },
            None => None,
        }
    }
}

/// The id of the node at `path` below the root: `r` and the digits of the
/// path.
pub open spec fn id_of(path: Seq<u8>) -> Seq<char> {
    seq!['r'] + Seq::new(path.len(), |i: int| digit(path[i] as int))
}

/// The octant that a digit names.
pub open spec fn digit_value(c: char) -> u8 {
    (c as int - '0' as int) as u8
}

/// Whether `id` is `r` followed by digits from 0 to 7.
pub open spec fn is_node_id(id: Seq<char>) -> bool {
    &&& id.len() >= 1
    &&& id[0] == 'r'
    &&& forall|i: int| 1 <= i < id.len() ==> '0' <= #[trigger] id[i] <= '7'
}

/// The path that a node id spells.
pub open spec fn path_of(id: Seq<char>) -> Seq<u8> {
    Seq::new((id.len() - 1) as nat, |i: int| digit_value(id[i + 1]))
}

/// What a client is told of `node`.
pub open spec fn describes(info: OctreeNodeInfo, node: OctreeNode) -> bool {
    &&& info.node_id@ == node.node_id@
    &&& info.bounds == node.bounds
    &&& info.level == node.level
    &&& info.point_count == node.points@.len()
    &&& info.has_children == !node.is_leaf_spec()
}

/// The nodes of the subtree of `node`, each before its children, the
/// children in the order of their slots.
pub open spec fn preorder(node: OctreeNode) -> Seq<OctreeNode>
    decreases MAX_DEPTH - node.level, 9int,
{
    seq![node] + preorder_children(node, 8)
}

/// The nodes of the subtrees of the first `k` children of `node`.
pub open spec fn preorder_children(node: OctreeNode, k: int) -> Seq<OctreeNode>
    decreases MAX_DEPTH - node.level, k,
{
    if k <= 0 || k > 8 {
        Seq::empty()
    } else {
        preorder_children(node, k - 1) + (match node.child(k - 1) {
            Some(c) => if node.level < c.level <= MAX_DEPTH {
                preorder(c)
            } else {
                Seq::empty()
            },
            None => Seq::empty(),
        })
    }
}

/// The product of the two longest sides of a box.
pub open spec fn footprint(b: BoundingBox3D) -> int {
    let x = b.size_x();
    let y = b.size_y();
    let z = b.size_z();
    if x <= y && x <= z {
        y * z
    } else if y <= x && y <= z {
        x * z
    } else {
        x * y
    }
}

/// The spacing of `n` points on the footprint of a box: the square root of
/// the area that one point has, rounded down; zero where the box has no
/// area, or one side of the two reaches backward.
pub open spec fn spacing_of(b: BoundingBox3D, n: int) -> int {
    if footprint(b) <= 0 {
        0
    } else {
        floor_sqrt(footprint(b) / n)
    }
}

/// The coordinates of the points, each less the centre: `x, y, z` of each
/// point in turn.
pub open spec fn relative_positions(pts: Seq<PointRecord>, b: BoundingBox3D) -> Seq<i64> {
    Seq::new(
        3 * pts.len(),
        |j: int|
            if j % 3 == 0 {
                (pts[j / 3].x - b.center_x()) as i64
            } else if j % 3 == 1 {
                (pts[j / 3].y - b.center_y()) as i64
            } else {
                (pts[j / 3].z - b.center_z()) as i64
            },
    )
}

/// The colours of the points: `r, g, b` of each point in turn.
pub open spec fn point_colors(pts: Seq<PointRecord>) -> Seq<u8> {
    Seq::new(
        3 * pts.len(),
        |j: int|
            if j % 3 == 0 {
                pts[j / 3].r
            } else if j % 3 == 1 {
                pts[j / 3].g
            } else {
                pts[j / 3].b
            },
    )
}

/// The chunk of `node` under the id `id`.
pub open spec fn chunk_of(chunk: PointChunk, node: OctreeNode, id: Seq<char>) -> bool {
    &&& chunk.node_id@ == id
    &&& chunk.center[0] == node.bounds.center_x()
    &&& chunk.center[1] == node.bounds.center_y()
    &&& chunk.center[2] == node.bounds.center_z()
    &&& chunk.level == node.level
    &&& chunk.spacing == spacing_of(node.bounds, node.points@.len() as int)
    &&& chunk.positions@ == relative_positions(node.points@, node.bounds)
    &&& chunk.colors@ == point_colors(node.points@)
    &&& chunk.intensities@ == node.points@.map_values(|p: PointRecord| p.intensity)
    &&& chunk.classifications@ == node.points@.map_values(|p: PointRecord| p.classification)
    &&& chunk.point_count == node.points@.len()
}

/// A node below a well-formed node is well formed, and its level and id
/// follow from the path to it.
pub proof fn lemma_node_at(root: OctreeNode, path: Seq<u8>)
    requires
        root.wf(),
        node_at(root, path) is Some,
    ensures
        node_at(root, path).unwrap().wf(),
        node_at(root, path).unwrap().level == root.level + path.len(),
        node_at(root, path).unwrap().node_id@ == root.node_id@ + Seq::new(
            path.len(),
            |i: int| digit(path[i] as int),
        ),
        forall|i: int| 0 <= i < path.len() ==> #[trigger] path[i] < 8,
    decreases path.len(),
{
    let n = node_at(root, path).unwrap();
    let tail = Seq::new(path.len(), |i: int| digit(path[i] as int));
    if path.len() == 0 {
        assert(root.node_id@ + tail =~= root.node_id@);
    } else {
        let front = path.drop_last();
        lemma_node_at(root, front);
        let parent = node_at(root, front).unwrap();
        assert(parent.child(path.last() as int) == Some(n));
        let front_tail = Seq::new(front.len(), |i: int| digit(front[i] as int));
        assert(n.node_id@ =~= root.node_id@ + tail) by {
            assert(n.node_id@ == parent.node_id@.push(digit(path.last() as int)));
            assert(parent.node_id@ == root.node_id@ + front_tail);
            assert(tail =~= front_tail.push(digit(path.last() as int)));
        }
        assert forall|i: int| 0 <= i < path.len() implies #[trigger] path[i] < 8 by {
            if i < front.len() {
                assert(front[i] == path[i]);
            }
        }
    }
}

/// The octree spatial index.
pub struct Octree {
    pub root: OctreeNode,
    pub total_points: u64,
}

impl Octree {
    /// The root is a well-formed node `r` at level 0.
    pub open spec fn wf(&self) -> bool {
        &&& self.root.wf()
        &&& self.root.level == 0
        &&& self.root.node_id@ == seq!['r']
    }

    /// Builds the octree of `points` within `bounds`: inserts the points
    /// in their order, then samples.
    pub fn build(points: Vec<PointRecord>, bounds: BoundingBox3D) -> (tree: Octree)
        requires
            bounds.in_limits(),
            points@.len() <= u32::MAX,
            forall|i: int| 0 <= i < points@.len() ==> (#[trigger] points@[i]).valid(),
        ensures
            tree.wf(),
            tree.root.bounds == bounds,
            tree.root.built(points@, true),
            tree.total_points == points@.len(),
    {
        proof {
            reveal_strlit("r");
        }
        let mut root = OctreeNode::new(String::from_str("r"), bounds, 0);
        assert(root.node_id@ =~= seq!['r']);
        assert(root.points@ =~= points@.take(0));
        let n: usize = points.len();
        let mut i: usize = 0;
        while i < n
            invariant
                i <= n,
                n == points@.len(),
                n <= u32::MAX,
                forall|j: int| 0 <= j < points@.len() ==> (#[trigger] points@[j]).valid(),
                root.wf(),
                root.level == 0,
                root.node_id@ == seq!['r'],
                root.bounds == bounds,
                root.built(points@.take(i as int), false),
            decreases n - i,
        {
            proof {
                assert(points@.take(i as int).push(points@[i as int]) =~= points@.take(i + 1));
            }
            insert_into_node(&mut root, points[i], Ghost(points@.take(i as int)));
            i = i + 1;
        }
        proof {
            assert(points@.take(n as int) =~= points@);
        }
        build_lod(&mut root, Ghost(points@));
        Octree { root, total_points: n as u64 }
    }

    /// The node with the id `id`, where the tree has one.
    pub open spec fn lookup(&self, id: Seq<char>) -> Option<OctreeNode> {
        if is_node_id(id) {
            node_at(self.root, path_of(id))
        } else {
            None
        }
    }

    /// Finds the node with the given id by walking down from the root,
    /// one level for each digit of the id.
    pub fn find_node(&self, node_id: &str) -> (r: Option<&OctreeNode>)
        requires
            self.wf(),
        ensures
            match r {
                Some(n) => self.lookup(node_id@) == Some(*n) && n.node_id@ == node_id@ && n.wf(),
                None => self.lookup(node_id@) is None,
            },
    {
        let len: usize = node_id.unicode_len();
        if len == 0 {
            return None;
        }
        if node_id.get_char(0) != 'r' {
            return None;
        }
        let ghost id = node_id@;
        let mut cur: &OctreeNode = &self.root;
        let mut i: usize = 1;
        proof {
            assert(path_of(id).take(0) =~= Seq::<u8>::empty());
        }
        while i < len
            invariant
                1 <= i <= len,
                len == id.len(),
                id == node_id@,
                id[0] == 'r',
                self.wf(),
                forall|j: int| 1 <= j < i ==> '0' <= #[trigger] id[j] <= '7',
                node_at(self.root, path_of(id).take(i - 1)) == Some(*cur),
            decreases len - i,
        {
            let c: char = node_id.get_char(i);
            if c < '0' || c > '7' {
                return None;
            }
            let k: u8 = ((c as u32) - ('0' as u32)) as u8;
            proof {
                let path = path_of(id).take(i as int);
                assert(path.drop_last() =~= path_of(id).take(i - 1));
                assert(path.last() == k);
            }
            match &cur.children[k as usize] {
                Some(child) => {
                    cur = &**child;
                },
                None => {
                    proof {
                        lemma_missing_prefix(self.root, path_of(id), i as int);
                    }
                    return None;
                },
            }
            i = i + 1;
        }
        proof {
            assert(path_of(id).take(len - 1) =~= path_of(id));
            lemma_node_at(self.root, path_of(id));
            assert(cur.node_id@ =~= id) by {
                let tail = Seq::new(path_of(id).len(), |j: int| digit(path_of(id)[j] as int));
                assert forall|j: int| 0 <= j < tail.len() implies tail[j] == id[j + 1] by {
                    let ch = id[j + 1];
                    assert('0' <= ch <= '7');
                }
                assert(seq!['r'] + tail =~= id);
            }
        }
        Some(cur)
    }

    /// Get info about a node by id.
    pub fn get_node_info(&self, node_id: &str) -> (r: Option<OctreeNodeInfo>)
        requires
            self.wf(),
        ensures
            match r {
                Some(info) => self.lookup(node_id@) is Some && describes(
                    info,
                    self.lookup(node_id@).unwrap(),
                ),
                None => self.lookup(node_id@) is None,
            },
    {
        match self.find_node(node_id) {
            Some(n) => Some(node_info(n)),
            None => None,
        }
    }

    /// The points of a node, laid out for a renderer; `None` where there
    /// is no such node or it holds no points.
    #[verifier::rlimit(40)]
    pub fn get_node_chunk(&self, node_id: &str) -> (r: Option<PointChunk>)
        requires
            self.wf(),
        ensures
            match r {
                Some(chunk) => {
                    &&& self.lookup(node_id@) is Some
                    &&& self.lookup(node_id@).unwrap().points@.len() > 0
                    &&& chunk_of(chunk, self.lookup(node_id@).unwrap(), node_id@)
                },
                None => self.lookup(node_id@) is None || self.lookup(
                    node_id@,
                ).unwrap().points@.len() == 0,
            },
    {
        let node = match self.find_node(node_id) {
            Some(n) => n,
            None => {
                return None;
            },
        };
        if node.points.len() == 0 {
            return None;
        }
        let center = node.bounds.center();
        let cx: i64 = center[0];
        let cy: i64 = center[1];
        let cz: i64 = center[2];
        let count: usize = node.points.len();
        let mut positions: Vec<i64> = Vec::new();
        let mut colors: Vec<u8> = Vec::new();
        let mut intensities: Vec<u16> = Vec::new();
        let mut classifications: Vec<u8> = Vec::new();
        let ghost pts = node.points@;
        let ghost b = node.bounds;
        let mut i: usize = 0;
        while i < count
            invariant
                i <= count,
                count == pts.len(),
                pts == node.points@,
                b == node.bounds,
                b.in_limits(),
                cx == b.center_x(),
                cy == b.center_y(),
                cz == b.center_z(),
                forall|j: int| 0 <= j < pts.len() ==> (#[trigger] pts[j]).valid(),
                positions@ == relative_positions(pts.take(i as int), b),
                colors@ == point_colors(pts.take(i as int)),
                intensities@ == pts.take(i as int).map_values(|p: PointRecord| p.intensity),
                classifications@ == pts.take(i as int).map_values(
                    |p: PointRecord| p.classification,
                ),
            decreases count - i,
        {
            let p = node.points[i];
            assert(p.valid());
            positions.push(p.x - cx);
            positions.push(p.y - cy);
            positions.push(p.z - cz);
            colors.push(p.r);
            colors.push(p.g);
            colors.push(p.b);
            intensities.push(p.intensity);
            classifications.push(p.classification);
            proof {
                let t0 = pts.take(i as int);
                let t1 = pts.take(i + 1);
                assert(positions@ =~= relative_positions(t1, b));
                assert(colors@ =~= point_colors(t1));
                assert(intensities@ =~= t1.map_values(|p: PointRecord| p.intensity));
                assert(classifications@ =~= t1.map_values(|p: PointRecord| p.classification));
            }
            i = i + 1;
        }
        proof {
            assert(pts.take(count as int) =~= pts);
        }
        let s = node.bounds.size();
        let x: i128 = s[0];
        let y: i128 = s[1];
        let z: i128 = s[2];
        let (d0, d1): (i128, i128) = if x <= y && x <= z {
            (y, z)
        } else if y <= x && y <= z {
            (x, z)
        } else {
            (x, y)
        };
        assert(-0x40_0000_0000_0000 * 0x40_0000_0000_0000 <= d0 * d1 <= 0x40_0000_0000_0000
            * 0x40_0000_0000_0000) by (nonlinear_arith)
            requires
                -0x40_0000_0000_0000 <= d0 <= 0x40_0000_0000_0000,
                -0x40_0000_0000_0000 <= d1 <= 0x40_0000_0000_0000,
        ;
        let area: i128 = d0 * d1;
        let spacing: u64 = if area <= 0 {
            0
        } else {
            isqrt((area as u128) / (count as u128))
        };
        Some(
            PointChunk {
                node_id: String::from_str(node_id),
                center,
                level: node.level,
                spacing,
                positions,
                colors,
                intensities,
                classifications,
                point_count: count as u32,
            },
        )
    }

    /// The infos of all nodes, each node before its children.
    pub fn all_node_infos(&self) -> (infos: Vec<OctreeNodeInfo>)
        requires
            self.wf(),
        ensures
            infos@.len() == preorder(self.root).len(),
            forall|i: int|
                0 <= i < infos@.len() ==> describes(#[trigger] infos@[i], preorder(self.root)[i]),
    {
        let mut infos: Vec<OctreeNodeInfo> = Vec::new();
        collect_infos(&self.root, &mut infos);
        proof {
            assert forall|i: int| 0 <= i < infos@.len() implies describes(
                #[trigger] infos@[i],
                preorder(self.root)[i],
            ) by {
                assert(describes(infos@[0 + i], preorder(self.root)[i]));
            }
        }
        infos
    }
}

/// There is no node below a missing one.
proof fn lemma_missing_prefix(root: OctreeNode, path: Seq<u8>, i: int)
    requires
        0 <= i <= path.len(),
        node_at(root, path.take(i)) is None,
    ensures
        node_at(root, path) is None,
    decreases path.len() - i,
{
    if i < path.len() {
        assert(path.take(i + 1).drop_last() =~= path.take(i));
        lemma_missing_prefix(root, path, i + 1);
    } else {
        assert(path.take(i) =~= path);
    }
}

/// What a client is told of a node.
fn node_info(n: &OctreeNode) -> (info: OctreeNodeInfo)
    requires
        n.points@.len() <= u32::MAX,
    ensures
        describes(info, *n),
{
    OctreeNodeInfo {
        node_id: n.node_id.clone(),
        bounds: n.bounds,
        level: n.level,
        point_count: n.point_count(),
        has_children: n.has_children(),
    }
}

/// Appends the infos of the subtree of `node`, the node first.
fn collect_infos(node: &OctreeNode, infos: &mut Vec<OctreeNodeInfo>)
    requires
        node.wf(),
    ensures
        final(infos)@.len() == old(infos)@.len() + preorder(*node).len(),
        forall|i: int| 0 <= i < old(infos)@.len() ==> final(infos)@[i] == old(infos)@[i],
        forall|i: int|
            0 <= i < preorder(*node).len() ==> describes(
                #[trigger] final(infos)@[old(infos)@.len() + i],
                preorder(*node)[i],
            ),
    decreases MAX_DEPTH - node.level,
{
    let ghost base = infos@.len() as int;
    infos.push(node_info(node));
    let mut k: usize = 0;
    while k < 8
        invariant
            k <= 8,
            node.wf(),
            base == old(infos)@.len(),
            infos@.len() == base + 1 + preorder_children(*node, k as int).len(),
            forall|i: int| 0 <= i < base ==> infos@[i] == old(infos)@[i],
            describes(infos@[base], *node),
            forall|i: int|
                0 <= i < preorder_children(*node, k as int).len() ==> describes(
                    #[trigger] infos@[base + 1 + i],
                    preorder_children(*node, k as int)[i],
                ),
        decreases 8 - k,
    {
        let ghost before = infos@;
        let ghost done = preorder_children(*node, k as int);
        match &node.children[k] {
            Some(c) => {
                assert(node.child(k as int) == Some(**c));
                collect_infos(c, infos);
                proof {
                    let next = preorder_children(*node, k + 1);
                    assert(next == done + preorder(**c));
                    assert forall|i: int| 0 <= i < next.len() implies describes(
                        #[trigger] infos@[base + 1 + i],
                        next[i],
                    ) by {
                        if i < done.len() {
                            assert(infos@[base + 1 + i] == before[base + 1 + i]);
                        } else {
                            assert(next[i] == preorder(**c)[i - done.len()]);
                            assert(base + 1 + i == before.len() + (i - done.len()));
                        }
                    }
                }
            },
            None => {
                assert(node.child(k as int) is None);
                assert(preorder_children(*node, k + 1) =~= done);
            },
        }
        k = k + 1;
    }
    proof {
        let all = preorder(*node);
        assert(all == seq![*node] + preorder_children(*node, 8));
        assert forall|i: int| 0 <= i < all.len() implies describes(
            #[trigger] infos@[base + i],
            all[i],
        ) by {
            if i > 0 {
                assert(all[i] == preorder_children(*node, 8)[i - 1]);
                assert(base + i == base + 1 + (i - 1));
            }
        }
    }
}

} // verus!
