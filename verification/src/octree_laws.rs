//! What holds of every node of a built octree.

use vstd::prelude::*;
use crate::octree::MAX_DEPTH;
use crate::octree::MAX_POINTS_PER_LEAF;
use crate::octree::Octree;
use crate::octree::OctreeNode;
use crate::octree::digit;
use crate::octree::id_of;
use crate::octree::is_node_id;
use crate::octree::path_of;
use crate::octree::lemma_node_at;
use crate::octree::lemma_routed_partition;
use crate::octree::lemma_routed_subset;
use crate::octree::node_at;
use crate::octree::routed;
use crate::octree::routed_total;
use crate::types::BoundingBox3D;
use crate::types::PointRecord;
use crate::types::lemma_octant_of_contains;

verus! {

/// The points of `pts` that are handed down the `path` from `root`: at
/// every node on the way, those that its box assigns to the octant that
/// the path takes.
pub open spec fn routed_along(pts: Seq<PointRecord>, root: OctreeNode, path: Seq<u8>) -> Seq<
    PointRecord,
>
    decreases path.len(),
{
    if path.len() == 0 {
        pts
    } else {
        match node_at(root, path.drop_last()) {
            Some(parent) => routed(
                routed_along(pts, root, path.drop_last()),
                parent.bounds,
                path.last() as int,
            ),
            None => Seq::empty(),
        }
    }
}

/// The number of points that the leaves of the subtree of `node` hold.
pub open spec fn leaf_points(node: OctreeNode) -> int
    decreases MAX_DEPTH - node.level, 9int,
{
    if node.is_leaf_spec() {
        node.points@.len() as int
    } else {
        leaf_points_children(node, 8)
    }
}

/// The number of points that the leaves below the first `k` children of
/// `node` hold.
pub open spec fn leaf_points_children(node: OctreeNode, k: int) -> int
    decreases MAX_DEPTH - node.level, k,
{
    if k <= 0 || k > 8 {
        0
    } else {
        leaf_points_children(node, k - 1) + (match node.child(k - 1) {
            Some(c) => if node.level < c.level <= MAX_DEPTH {
                leaf_points(c)
            } else {
                0
            },
            None => 0,
        })
    }
}

/// Whether all points lie in the box.
pub open spec fn all_inside(pts: Seq<PointRecord>, b: BoundingBox3D) -> bool {
    forall|i: int|
        0 <= i < pts.len() ==> b.contains_spec(
            (#[trigger] pts[i]).x as int,
            pts[i].y as int,
            pts[i].z as int,
        )
}

/// A node of a built tree is itself the tree of the points handed down to
/// it.
pub proof fn lemma_built_at(root: OctreeNode, pts: Seq<PointRecord>, sampled: bool, path: Seq<u8>)
    requires
        root.wf(),
        root.built(pts, sampled),
        node_at(root, path) is Some,
    ensures
        node_at(root, path).unwrap().wf(),
        node_at(root, path).unwrap().built(routed_along(pts, root, path), sampled),
    decreases path.len(),
{
    lemma_node_at(root, path);
    if path.len() > 0 {
        let front = path.drop_last();
        lemma_built_at(root, pts, sampled, front);
        let parent = node_at(root, front).unwrap();
        assert(parent.child(path.last() as int) is Some);
    }
}

/// The id of a node is `r` and the digits of the path to it, and leads
/// back to the node: no two nodes of a tree have the same id.
pub proof fn lemma_id_locates(tree: Octree, path: Seq<u8>)
    requires
        tree.wf(),
        node_at(tree.root, path) is Some,
    ensures
        node_at(tree.root, path).unwrap().node_id@ == id_of(path),
        is_node_id(id_of(path)),
        path_of(id_of(path)) == path,
        tree.lookup(id_of(path)) == node_at(tree.root, path),
{
    lemma_node_at(tree.root, path);
    let id = id_of(path);
    assert forall|i: int| 1 <= i < id.len() implies '0' <= #[trigger] id[i] <= '7' by {
        assert(id[i] == digit(path[i - 1] as int));
        assert(path[i - 1] < 8);
    }
    assert(path_of(id) =~= path) by {
        assert forall|i: int| 0 <= i < path.len() implies path_of(id)[i] == path[i] by {
            assert(id[i + 1] == digit(path[i] as int));
            assert(path[i] < 8);
        }
    }
}

/// The id of a child is the id of its parent and one more character, the
/// digit of its octant.
pub proof fn lemma_prefix_id(tree: Octree, path: Seq<u8>, k: int)
    requires
        tree.wf(),
        0 <= k < 8,
        node_at(tree.root, path) is Some,
        node_at(tree.root, path).unwrap().child(k) is Some,
    ensures
        ({
            let v = node_at(tree.root, path).unwrap();
            let c = v.child(k).unwrap();
            &&& c.node_id@.len() == v.node_id@.len() + 1
            &&& c.node_id@.take(v.node_id@.len() as int) == v.node_id@
            &&& c.node_id@ == v.node_id@.push(digit(k))
            &&& c.level == v.level + 1
        }),
{
    lemma_node_at(tree.root, path);
    let v = node_at(tree.root, path).unwrap();
    let c = v.child(k).unwrap();
    assert(c.node_id@.take(v.node_id@.len() as int) =~= v.node_id@);
}

/// No node lies below `MAX_DEPTH`, the level of a node is the length of its
/// id less one, and a leaf above `MAX_DEPTH` holds at most
/// `MAX_POINTS_PER_LEAF` points.
pub proof fn lemma_depth_bound(tree: Octree, pts: Seq<PointRecord>, sampled: bool, path: Seq<u8>)
    requires
        tree.wf(),
        tree.root.built(pts, sampled),
        node_at(tree.root, path) is Some,
    ensures
        ({
            let v = node_at(tree.root, path).unwrap();
            &&& v.level <= MAX_DEPTH
            &&& v.level == path.len()
            &&& v.level == v.node_id@.len() - 1
            &&& (v.is_leaf_spec() && v.level < MAX_DEPTH ==> v.points@.len()
                <= MAX_POINTS_PER_LEAF)
        }),
{
    lemma_node_at(tree.root, path);
    lemma_built_at(tree.root, pts, sampled, path);
}

proof fn lemma_leaf_points_children(node: OctreeNode, pts: Seq<PointRecord>, sampled: bool, k: int)
    requires
        node.wf(),
        !node.is_leaf_spec(),
        node.built(pts, sampled),
        0 <= k <= 8,
    ensures
        leaf_points_children(node, k) == routed_total(pts, node.bounds, k),
    decreases MAX_DEPTH - node.level, k,
{
    if k > 0 {
        lemma_leaf_points_children(node, pts, sampled, k - 1);
        match node.child(k - 1) {
            Some(c) => {
                lemma_leaf_points(c, routed(pts, node.bounds, k - 1), sampled);
            },
            None => {},
        }
    }
}

/// The leaves of a built tree hold as many points as the tree was built
/// from.
pub proof fn lemma_leaf_points(node: OctreeNode, pts: Seq<PointRecord>, sampled: bool)
    requires
        node.wf(),
        node.built(pts, sampled),
    ensures
        leaf_points(node) == pts.len(),
    decreases MAX_DEPTH - node.level, 9int,
{
    if !node.is_leaf_spec() {
        lemma_leaf_points_children(node, pts, sampled, 8);
        lemma_routed_partition(pts, node.bounds);
    }
}

/// Points of a box that are handed down a path lie in the box of the node
/// at its end.
pub proof fn lemma_routed_inside(root: OctreeNode, pts: Seq<PointRecord>, path: Seq<u8>)
    requires
        root.wf(),
        all_inside(pts, root.bounds),
        node_at(root, path) is Some,
    ensures
        all_inside(routed_along(pts, root, path), node_at(root, path).unwrap().bounds),
    decreases path.len(),
{
    lemma_node_at(root, path);
    if path.len() > 0 {
        let front = path.drop_last();
        let k = path.last() as int;
        lemma_node_at(root, front);
        lemma_routed_inside(root, pts, front);
        let parent = node_at(root, front).unwrap();
        let v = node_at(root, path).unwrap();
        let above = routed_along(pts, root, front);
        let here = routed_along(pts, root, path);
        lemma_routed_subset(above, parent.bounds, k);
        assert(parent.child(k) == Some(v));
        assert forall|i: int| 0 <= i < here.len() implies v.bounds.contains_spec(
            (#[trigger] here[i]).x as int,
            here[i].y as int,
            here[i].z as int,
        ) by {
            let p = here[i];
            assert(above.contains(p));
            let j = choose|j: int| 0 <= j < above.len() && above[j] == p;
            assert(parent.bounds.contains_spec(above[j].x as int, above[j].y as int, above[j].z as int));
            lemma_octant_of_contains(parent.bounds, p.x as int, p.y as int, p.z as int);
        }
    }
}

/// Where the points that a tree is built from lie in its box, the points
/// of every leaf lie in the box of the leaf.
pub proof fn lemma_leaf_inside(tree: Octree, pts: Seq<PointRecord>, sampled: bool, path: Seq<u8>)
    requires
        tree.wf(),
        tree.root.built(pts, sampled),
        all_inside(pts, tree.root.bounds),
        node_at(tree.root, path) is Some,
        node_at(tree.root, path).unwrap().is_leaf_spec(),
    ensures
        all_inside(
            node_at(tree.root, path).unwrap().points@,
            node_at(tree.root, path).unwrap().bounds,
        ),
{
    lemma_built_at(tree.root, pts, sampled, path);
    lemma_routed_inside(tree.root, pts, path);
}

} // verus!
