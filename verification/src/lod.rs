//! Level-of-detail selection: which nodes to draw for a camera, within a
//! point budget.
//!
//! A node's screen size is its largest side `s` over its distance `d` from
//! the camera, times `screen_height / (2 * half_fov_tan)`. Distances are
//! whole millionths: the integer square root of the squared distance. The
//! comparisons of a screen size with a threshold, and of two priorities
//! `d / max(s, 0.001)`, are made exactly, by cross-multiplication.

use vstd::prelude::*;
use crate::fixed::floor_sqrt;
use crate::fixed::lemma_floor_sqrt_exists;
use crate::fixed::isqrt;
use crate::octree::MAX_DEPTH;
use crate::octree::Octree;
use crate::octree::OctreeNode;
use crate::octree::node_at;
use crate::octree_laws::lemma_id_locates;
use crate::types::BoundingBox3D;
use crate::types::CameraState;

verus! {

/// A subtree whose screen size is below this many pixels is not drawn.
pub const CULL_BELOW: i128 = 1;

/// An internal node whose screen size is below this many pixels stands in
/// for its descendants.
pub const REFINE_BELOW: i128 = 200;

/// A camera within this distance of a node's centre (0.001, in millionths)
/// sees the node at unbounded screen size.
pub const NEAR: u64 = 1_000;

/// The least extent that a priority divides by (0.001, in millionths).
pub const MIN_EXTENT: u64 = 1_000;

/// A node that may be drawn. Its priority is `distance / extent`; the
/// smaller, the more important.
#[derive(Debug, Clone)]
pub struct Candidate {
    pub node_id: String,
    /// Distance from the camera to the node's centre.
    pub distance: u64,
    /// The node's largest side, or `MIN_EXTENT` if that is larger.
    pub extent: u64,
    pub point_count: u32,
}

/// A candidate as a value.
pub struct CandidateView {
    pub node_id: Seq<char>,
    pub distance: int,
    pub extent: int,
    pub point_count: int,
}

impl View for Candidate {
    type V = CandidateView;

    open spec fn view(&self) -> CandidateView {
        CandidateView {
            node_id: self.node_id@,
            distance: self.distance as int,
            extent: self.extent as int,
            point_count: self.point_count as int,
        }
    }
}

/// The views of a sequence of candidates.
pub open spec fn views(v: Seq<Candidate>) -> Seq<CandidateView> {
    v.map_values(|c: Candidate| c@)
}

/// The squared distance from the camera to the centre of a box.
pub open spec fn distance_squared(cam: CameraState, b: BoundingBox3D) -> int {
    let dx = b.center_x() - cam.position[0];
    let dy = b.center_y() - cam.position[1];
    let dz = b.center_z() - cam.position[2];
    dx * dx + dy * dy + dz * dz
}

/// The distance from the camera to the centre of a box, rounded down.
pub open spec fn distance(cam: CameraState, b: BoundingBox3D) -> int {
    floor_sqrt(distance_squared(cam, b))
}

/// The camera is so near the centre of the box that the screen size counts
/// as unbounded.
pub open spec fn is_near(cam: CameraState, b: BoundingBox3D) -> bool {
    distance_squared(cam, b) <= NEAR * NEAR
}

/// Whether the screen size of a box, `(s / d) * screen_height / (2 *
/// half_fov_tan)`, is below `k` pixels. With a tangent of zero the quotient
/// is an infinity with the sign of `s * screen_height`, or undefined where
/// that is zero, and is then below nothing.
pub open spec fn screen_size_below(cam: CameraState, b: BoundingBox3D, k: int) -> bool {
    let lhs = b.max_extent_spec() * cam.screen_height;
    let rhs = k * 2 * cam.half_fov_tan * distance(cam, b);
    if is_near(cam, b) {
        false
    } else if cam.half_fov_tan > 0 {
        lhs < rhs
    } else if cam.half_fov_tan < 0 {
        lhs > rhs
    } else {
        lhs < 0
    }
}

/// The largest side of a box, or `MIN_EXTENT` if that is larger.
pub open spec fn extent_of(b: BoundingBox3D) -> int {
    if b.max_extent_spec() > MIN_EXTENT {
        b.max_extent_spec()
    } else {
        MIN_EXTENT as int
    }
}

/// Whether a node is drawn itself where it has points: a leaf, or a node
/// small enough on screen.
pub open spec fn should_use(node: OctreeNode, cam: CameraState) -> bool {
    node.is_leaf_spec() || screen_size_below(cam, node.bounds, REFINE_BELOW as int)
}

/// The candidate that a node makes.
pub open spec fn candidate_of(node: OctreeNode, cam: CameraState) -> CandidateView {
    CandidateView {
        node_id: node.node_id@,
        distance: distance(cam, node.bounds),
        extent: extent_of(node.bounds),
        point_count: node.points@.len() as int,
    }
}

/// The candidates of the subtree of `node`, a node before its children:
/// nothing of an empty leaf or of a subtree too small on screen; else the
/// node itself where it is to be used and has points, and the candidates of
/// its children unless it is a leaf.
pub open spec fn visible(node: OctreeNode, cam: CameraState) -> Seq<CandidateView>
    decreases MAX_DEPTH - node.level, 9int,
{
    if node.points@.len() == 0 && node.is_leaf_spec() {
        Seq::empty()
    } else if screen_size_below(cam, node.bounds, CULL_BELOW as int) {
        Seq::empty()
    } else {
        (if should_use(node, cam) && node.points@.len() > 0 {
            seq![candidate_of(node, cam)]
        } else {
            Seq::empty()
        }) + (if !node.is_leaf_spec() {
            visible_children(node, cam, 8)
        } else {
            Seq::empty()
        })
    }
}

/// The candidates of the first `k` children of `node`.
pub open spec fn visible_children(node: OctreeNode, cam: CameraState, k: int) -> Seq<CandidateView>
    decreases MAX_DEPTH - node.level, k,
{
    if k <= 0 || k > 8 {
        Seq::empty()
    } else {
        visible_children(node, cam, k - 1) + (match node.child(k - 1) {
            Some(c) => if node.level < c.level <= MAX_DEPTH {
                visible(c, cam)
            } else {
                Seq::empty()
            },
            None => Seq::empty(),
        })
    }
}

/// Whether the priority of `a` is at most that of `b`:
/// `a.distance / a.extent <= b.distance / b.extent`.
pub open spec fn not_after(a: CandidateView, b: CandidateView) -> bool {
    a.distance * b.extent <= b.distance * a.extent
}

/// Two sequences that stand in the order of priorities, merged into one:
/// the candidate of smaller priority first, and of two with equal
/// priorities the one of `a`.
pub open spec fn merged(a: Seq<CandidateView>, b: Seq<CandidateView>) -> Seq<CandidateView>
    decreases a.len() + b.len(),
{
    if a.len() == 0 {
        b
    } else if b.len() == 0 {
        a
    } else if not_after(a[0], b[0]) {
        seq![a[0]] + merged(a.drop_first(), b)
    } else {
        seq![b[0]] + merged(a, b.drop_first())
    }
}

/// The candidates in the order of their priorities, smallest first;
/// candidates of equal priority keep their order. The two halves are
/// ordered and merged.
pub open spec fn by_priority(s: Seq<CandidateView>) -> Seq<CandidateView>
    decreases s.len(),
{
    if s.len() <= 1 {
        s
    } else {
        let mid = (s.len() / 2) as int;
        merged(by_priority(s.take(mid)), by_priority(s.skip(mid)))
    }
}

/// How many of the candidates from index `i` on are accepted after the
/// first `i`, which hold `total` points: a candidate is accepted while the
/// points so far and its own stay within the budget, and the first one in
/// any case.
pub open spec fn accepted_from(s: Seq<CandidateView>, budget: int, i: int, total: int) -> int
    decreases s.len() - i,
{
    if i < 0 || i >= s.len() {
        i
    } else if total + s[i].point_count > budget && i > 0 {
        i
    } else {
        accepted_from(s, budget, i + 1, total + s[i].point_count)
    }
}

/// How many of the candidates, taken from the front, are accepted.
pub open spec fn accepted(s: Seq<CandidateView>, budget: int) -> int {
    accepted_from(s, budget, 0, 0)
}

/// The candidates to draw: those of the tree in the order of priority, as
/// far as the budget accepts them.
pub open spec fn selected(root: OctreeNode, cam: CameraState, budget: int) -> Seq<CandidateView> {
    let sorted = by_priority(visible(root, cam));
    sorted.take(accepted(sorted, budget))
}

/// The ids of the nodes to draw: those of the candidates to draw, in their
/// order.
pub open spec fn selection(root: OctreeNode, cam: CameraState, budget: int) -> Seq<Seq<char>> {
    selected(root, cam, budget).map_values(|c: CandidateView| c.node_id)
}

/// The squared distance and the distance from the camera to the centre of
/// a box.
fn camera_distance(cam: &CameraState, b: &BoundingBox3D) -> (r: (u128, u64))
    requires
        cam.valid(),
        b.in_limits(),
    ensures
        r.0 as int == distance_squared(*cam, *b),
        r.1 as int == distance(*cam, *b),
        r.1 < 0x80_0000_0000_0000,
{
    let c = b.center();
    let dx: i128 = c[0] as i128 - cam.position[0] as i128;
    let dy: i128 = c[1] as i128 - cam.position[1] as i128;
    let dz: i128 = c[2] as i128 - cam.position[2] as i128;
    proof {
        lemma_square_bound(dx as int);
        lemma_square_bound(dy as int);
        lemma_square_bound(dz as int);
    }
    let d2: u128 = (dx * dx + dy * dy + dz * dz) as u128;
    let d: u64 = isqrt(d2);
    proof {
        if d >= 0x80_0000_0000_0000 {
            assert(d * d >= 0x80_0000_0000_0000 * 0x80_0000_0000_0000) by (nonlinear_arith)
                requires
                    d >= 0x80_0000_0000_0000,
            ;
        }
    }
    (d2, d)
}

proof fn lemma_square_bound(v: int)
    requires
        -0x40_0000_0000_0000 <= v <= 0x40_0000_0000_0000,
    ensures
        0 <= v * v <= 0x1000_0000_0000_0000_0000_0000_0000,
{
    assert(0 <= v * v <= 0x40_0000_0000_0000 * 0x40_0000_0000_0000) by (nonlinear_arith)
        requires
            -0x40_0000_0000_0000 <= v <= 0x40_0000_0000_0000,
    ;
}

/// Whether the screen size of a box is below `k` pixels.
fn below(cam: &CameraState, b: &BoundingBox3D, d2: u128, d: u64, k: i128) -> (r: bool)
    requires
        cam.valid(),
        b.in_limits(),
        d2 as int == distance_squared(*cam, *b),
        d as int == distance(*cam, *b),
        d < 0x80_0000_0000_0000,
        1 <= k <= 200,
    ensures
        r == screen_size_below(*cam, *b, k as int),
{
    if d2 <= (NEAR as u128) * (NEAR as u128) {
        return false;
    }
    let s: i128 = b.max_extent();
    let h: i128 = cam.screen_height as i128;
    let t: i128 = cam.half_fov_tan as i128;
    assert(-0x40_0000_0000_0000 * 0x8000_0000_0000_0000 <= s * h <= 0x40_0000_0000_0000
        * 0x8000_0000_0000_0000) by (nonlinear_arith)
        requires
            -0x40_0000_0000_0000 <= s <= 0x40_0000_0000_0000,
            -0x8000_0000_0000_0000 <= h <= 0x8000_0000_0000_0000,
    ;
    let lhs: i128 = s * h;
    if t == 0 {
        return lhs < 0;
    }
    let k2: i128 = k * 2;
    assert(-400 * 0x8000_0000_0000_0000 <= k2 * t <= 400 * 0x8000_0000_0000_0000)
        by (nonlinear_arith)
        requires
            2 <= k2 <= 400,
            -0x8000_0000_0000_0000 <= t <= 0x8000_0000_0000_0000,
    ;
    let kt: i128 = k2 * t;
    let dd: i128 = d as i128;
    assert(-400 * 0x8000_0000_0000_0000 * 0x80_0000_0000_0000 <= kt * dd <= 400
        * 0x8000_0000_0000_0000 * 0x80_0000_0000_0000) by (nonlinear_arith)
        requires
            -400 * 0x8000_0000_0000_0000 <= kt <= 400 * 0x8000_0000_0000_0000,
            0 <= dd <= 0x80_0000_0000_0000,
    ;
    let rhs: i128 = kt * dd;
    assert(rhs as int == k as int * 2 * cam.half_fov_tan * distance(*cam, *b)) by (nonlinear_arith)
        requires
            rhs as int == kt as int * dd as int,
            kt as int == k2 as int * t as int,
            k2 as int == k as int * 2,
            t as int == cam.half_fov_tan as int,
            dd as int == distance(*cam, *b),
    ;
    if t > 0 {
        lhs < rhs
    } else {
        lhs > rhs
    }
}

/// Appends the candidates of the subtree of `node`.
pub fn collect_visible(node: &OctreeNode, camera: &CameraState, candidates: &mut Vec<Candidate>)
    requires
        node.wf(),
        camera.valid(),
    ensures
        views(final(candidates)@) == views(old(candidates)@) + visible(*node, *camera),
    decreases MAX_DEPTH - node.level,
{
    let leaf = node.is_leaf();
    if node.points.len() == 0 && leaf {
        assert(views(candidates@) + Seq::<CandidateView>::empty() =~= views(candidates@));
        return;
    }
    let (d2, d) = camera_distance(camera, &node.bounds);
    // Too small on screen: skip the node and all below it.
    if below(camera, &node.bounds, d2, d, CULL_BELOW) {
        assert(views(candidates@) + Seq::<CandidateView>::empty() =~= views(candidates@));
        return;
    }
    let should_use_node = leaf || below(camera, &node.bounds, d2, d, REFINE_BELOW);
    let ghost own = if should_use(*node, *camera) && node.points@.len() > 0 {
        seq![candidate_of(*node, *camera)]
    } else {
        Seq::<CandidateView>::empty()
    };
    if should_use_node && node.points.len() > 0 {
        let s: i128 = node.bounds.max_extent();
        let extent: u64 = if s > MIN_EXTENT as i128 {
            s as u64
        } else {
            MIN_EXTENT
        };
        let c = Candidate {
            node_id: node.node_id.clone(),
            distance: d,
            extent,
            point_count: node.point_count(),
        };
        assert(c@ == candidate_of(*node, *camera));
        candidates.push(c);
    }
    assert(views(candidates@) =~= views(old(candidates)@) + own);
    if !should_use_node || !leaf {
        let mut k: usize = 0;
        assert(views(candidates@) =~= views(old(candidates)@) + own + visible_children(
            *node,
            *camera,
            0,
        ));
        while k < 8
            invariant
                k <= 8,
                node.wf(),
                camera.valid(),
                views(candidates@) == views(old(candidates)@) + own + visible_children(
                    *node,
                    *camera,
                    k as int,
                ),
            decreases 8 - k,
        {
            let ghost done = visible_children(*node, *camera, k as int);
            match &node.children[k] {
                Some(c) => {
                    assert(node.child(k as int) == Some(**c));
                    collect_visible(c, camera, candidates);
                    assert(views(candidates@) =~= views(old(candidates)@) + own
                        + visible_children(*node, *camera, k + 1)) by {
                        assert(visible_children(*node, *camera, k + 1) == done + visible(
                            **c,
                            *camera,
                        ));
                    }
                },
                None => {
                    assert(node.child(k as int) is None);
                    assert(visible_children(*node, *camera, k + 1) =~= done);
                },
            }
            k = k + 1;
        }
        assert(views(candidates@) =~= views(old(candidates)@) + (own + visible_children(
            *node,
            *camera,
            8,
        )));
    } else {
        assert(own + Seq::<CandidateView>::empty() =~= own);
    }
}

/// Whether the priority of `a` is at most that of `b`.
fn priority_not_after(a: &Candidate, b: &Candidate) -> (r: bool)
    ensures
        r == not_after(a@, b@),
{
    assert(a.distance * b.extent <= 0xffff_ffff_ffff_ffff * 0xffff_ffff_ffff_ffff)
        by (nonlinear_arith)
        requires
            0 <= a.distance <= 0xffff_ffff_ffff_ffff,
            0 <= b.extent <= 0xffff_ffff_ffff_ffff,
    ;
    assert(b.distance * a.extent <= 0xffff_ffff_ffff_ffff * 0xffff_ffff_ffff_ffff)
        by (nonlinear_arith)
        requires
            0 <= b.distance <= 0xffff_ffff_ffff_ffff,
            0 <= a.extent <= 0xffff_ffff_ffff_ffff,
    ;
    (a.distance as u128) * (b.extent as u128) <= (b.distance as u128) * (a.extent as u128)
}

/// A copy of a candidate.
fn copy_candidate(c: &Candidate) -> (r: Candidate)
    ensures
        r@ == c@,
{
    Candidate {
        node_id: c.node_id.clone(),
        distance: c.distance,
        extent: c.extent,
        point_count: c.point_count,
    }
}

/// What is left to merge when the first of `a` is taken.
proof fn lemma_merged_step(a: Seq<CandidateView>, b: Seq<CandidateView>, i: int, j: int)
    requires
        0 <= i <= a.len(),
        0 <= j <= b.len(),
        i < a.len() || j < b.len(),
    ensures
        merged(a.skip(i), b.skip(j)) == (if i < a.len() && (j == b.len() || not_after(a[i], b[j])) {
            seq![a[i]] + merged(a.skip(i + 1), b.skip(j))
        } else {
            seq![b[j]] + merged(a.skip(i), b.skip(j + 1))
        }),
{
    let x = a.skip(i);
    let y = b.skip(j);
    if i < a.len() {
        assert(x[0] == a[i]);
        assert(x.drop_first() =~= a.skip(i + 1));
    }
    if j < b.len() {
        assert(y[0] == b[j]);
        assert(y.drop_first() =~= b.skip(j + 1));
    }
    if i == a.len() {
        assert(merged(x, y) == y);
        assert(merged(a.skip(i), b.skip(j + 1)) == b.skip(j + 1));
        assert(y =~= seq![b[j]] + b.skip(j + 1));
    } else if j == b.len() {
        assert(merged(x, y) == x);
        assert(merged(a.skip(i + 1), y) =~= a.skip(i + 1)) by {
            if a.skip(i + 1).len() == 0 {
                assert(y =~= a.skip(i + 1));
            }
        }
        assert(x =~= seq![a[i]] + a.skip(i + 1));
    }
}

/// Merges two sequences that stand in the order of priorities.
fn merge(a: &Vec<Candidate>, b: &Vec<Candidate>) -> (out: Vec<Candidate>)
    ensures
        views(out@) == merged(views(a@), views(b@)),
{
    let mut out: Vec<Candidate> = Vec::new();
    let mut i: usize = 0;
    let mut j: usize = 0;
    let ghost va = views(a@);
    let ghost vb = views(b@);
    assert(views(out@) + merged(va.skip(0), vb.skip(0)) =~= merged(va, vb)) by {
        assert(va.skip(0) =~= va);
        assert(vb.skip(0) =~= vb);
    }
    while i < a.len() || j < b.len()
        invariant
            i <= a@.len(),
            j <= b@.len(),
            va == views(a@),
            vb == views(b@),
            views(out@) + merged(va.skip(i as int), vb.skip(j as int)) == merged(va, vb),
        decreases a@.len() - i + b@.len() - j,
    {
        proof {
            lemma_merged_step(va, vb, i as int, j as int);
        }
        let ghost before = views(out@);
        if i < a.len() && (j == b.len() || priority_not_after(&a[i], &b[j])) {
            out.push(copy_candidate(&a[i]));
            assert(views(out@) =~= before + seq![va[i as int]]);
            i = i + 1;
        } else {
            out.push(copy_candidate(&b[j]));
            assert(views(out@) =~= before + seq![vb[j as int]]);
            j = j + 1;
        }
        assert(views(out@) + merged(va.skip(i as int), vb.skip(j as int)) =~= merged(va, vb));
    }
    proof {
        assert(va.skip(i as int) =~= Seq::<CandidateView>::empty());
        assert(views(out@) + Seq::<CandidateView>::empty() =~= views(out@));
    }
    out
}

/// Sorts the candidates from `lo` up to `hi`.
fn sort_range(candidates: &Vec<Candidate>, lo: usize, hi: usize) -> (sorted: Vec<Candidate>)
    requires
        lo <= hi <= candidates@.len(),
    ensures
        views(sorted@) == by_priority(views(candidates@).subrange(lo as int, hi as int)),
    decreases hi - lo,
{
    let ghost part = views(candidates@).subrange(lo as int, hi as int);
    if hi - lo <= 1 {
        let mut out: Vec<Candidate> = Vec::new();
        if hi - lo == 1 {
            out.push(copy_candidate(&candidates[lo]));
        }
        assert(views(out@) =~= part);
        out
    } else {
        let mid: usize = lo + (hi - lo) / 2;
        let left = sort_range(candidates, lo, mid);
        let right = sort_range(candidates, mid, hi);
        proof {
            let half = (part.len() / 2) as int;
            assert(part.take(half) =~= views(candidates@).subrange(lo as int, mid as int));
            assert(part.skip(half) =~= views(candidates@).subrange(mid as int, hi as int));
        }
        merge(&left, &right)
    }
}

/// Sorts the candidates by priority, smallest first; candidates of equal
/// priority keep their order.
pub fn sort_by_priority(candidates: &Vec<Candidate>) -> (sorted: Vec<Candidate>)
    ensures
        views(sorted@) == by_priority(views(candidates@)),
{
    assert(views(candidates@).subrange(0, candidates@.len() as int) =~= views(candidates@));
    sort_range(candidates, 0, candidates.len())
}

impl Octree {
    /// Select visible nodes based on camera state and point budget.
    /// Returns node ids sorted by priority, the most important first.
    pub fn get_visible_nodes(&self, camera: &CameraState, point_budget: u32) -> (ids: Vec<String>)
        requires
            self.wf(),
            camera.valid(),
        ensures
            ids@.len() == selection(self.root, *camera, point_budget as int).len(),
            forall|i: int|
                0 <= i < ids@.len() ==> (#[trigger] ids@[i])@ == selection(
                    self.root,
                    *camera,
                    point_budget as int,
                )[i],
    {
        let mut candidates: Vec<Candidate> = Vec::new();
        collect_visible(&self.root, camera, &mut candidates);
        assert(views(candidates@) =~= visible(self.root, *camera));
        let sorted = sort_by_priority(&candidates);
        let ghost sv = views(sorted@);
        let mut result: Vec<String> = Vec::new();
        let mut total: u64 = 0;
        let n: usize = sorted.len();
        let mut i: usize = 0;
        while i < n
            invariant_except_break
                i <= n,
                accepted(sv, point_budget as int) == accepted_from(
                    sv,
                    point_budget as int,
                    i as int,
                    total as int,
                ),
            invariant
                n == sorted@.len(),
                sv == views(sorted@),
                i <= n,
                result@.len() == i,
                i == 0 ==> total == 0,
                total <= u32::MAX,
                forall|j: int| 0 <= j < i ==> (#[trigger] result@[j])@ == sv[j].node_id,
            ensures
                i == accepted(sv, point_budget as int),
            decreases n - i,
        {
            let count: u64 = sorted[i].point_count as u64;
            assert(sv[i as int] == sorted@[i as int]@);
            if total + count > point_budget as u64 && result.len() > 0 {
                break;
            }
            total = total + count;
            result.push(sorted[i].node_id.clone());
            i = i + 1;
        }
        proof {
            let sel = selection(self.root, *camera, point_budget as int);
            assert(sel == sv.take(i as int).map_values(|c: CandidateView| c.node_id));
            assert forall|j: int| 0 <= j < result@.len() implies (#[trigger] result@[j])@
                == sel[j] by {
                assert(sv.take(i as int)[j] == sv[j]);
            }
        }
        result
    }
}

/// The number accepted lies between where the count starts and the number
/// of candidates.
pub proof fn lemma_accepted_bounds(s: Seq<CandidateView>, budget: int, i: int, total: int)
    requires
        0 <= i <= s.len(),
    ensures
        i <= accepted_from(s, budget, i, total) <= s.len(),
    decreases s.len() - i,
{
    if i < s.len() && !(total + s[i].point_count > budget && i > 0) {
        lemma_accepted_bounds(s, budget, i + 1, total + s[i].point_count);
    }
}

/// The first candidate is accepted whatever the budget.
pub proof fn lemma_first_accepted(s: Seq<CandidateView>, budget: int)
    requires
        s.len() > 0,
    ensures
        accepted(s, budget) >= 1,
{
    lemma_accepted_bounds(s, budget, 1, s[0].point_count);
}

proof fn lemma_accepted_monotone_from(
    s: Seq<CandidateView>,
    small: int,
    large: int,
    i: int,
    total: int,
)
    requires
        small <= large,
        0 <= i <= s.len(),
    ensures
        accepted_from(s, small, i, total) <= accepted_from(s, large, i, total),
    decreases s.len() - i,
{
    if i < s.len() {
        if total + s[i].point_count > small && i > 0 {
            lemma_accepted_bounds(s, large, i, total);
        } else {
            lemma_accepted_monotone_from(s, small, large, i + 1, total + s[i].point_count);
            if total + s[i].point_count > large && i > 0 {
                assert(false);
            }
        }
    }
}

/// A smaller budget accepts no more candidates: for one tree and one
/// camera, the nodes selected under the smaller of two budgets are the
/// first of those selected under the larger, in the same order.
pub proof fn lemma_budget_monotone(root: OctreeNode, cam: CameraState, small: int, large: int)
    requires
        small <= large,
    ensures
        selection(root, cam, small).len() <= selection(root, cam, large).len(),
        selection(root, cam, small) == selection(root, cam, large).take(
            selection(root, cam, small).len() as int,
        ),
{
    let sorted = by_priority(visible(root, cam));
    lemma_accepted_monotone_from(sorted, small, large, 0, 0);
    lemma_accepted_bounds(sorted, small, 0, 0);
    lemma_accepted_bounds(sorted, large, 0, 0);
    let a = accepted(sorted, small);
    let b = accepted(sorted, large);
    assert(sorted.take(b).take(a) =~= sorted.take(a));
    assert(selection(root, cam, small) =~= selection(root, cam, large).take(a));
}

/// Whether some node below `node` has the id `id`.
pub open spec fn names_node(node: OctreeNode, id: Seq<char>) -> bool {
    exists|path: Seq<u8>| #[trigger]
        node_at(node, path) is Some && node_at(node, path).unwrap().node_id@ == id
}

/// A node below a child is below the parent.
proof fn lemma_names_below(node: OctreeNode, k: int, id: Seq<char>)
    requires
        0 <= k < 8,
        node.child(k) is Some,
        names_node(node.child(k).unwrap(), id),
    ensures
        names_node(node, id),
{
    let c = node.child(k).unwrap();
    let path = choose|path: Seq<u8>| #[trigger]
        node_at(c, path) is Some && node_at(c, path).unwrap().node_id@ == id;
    lemma_node_at_below(node, k, path);
    let longer = seq![k as u8] + path;
    assert(node_at(node, longer) is Some);
}

/// The node at `path` below child `k` is the node at `k` and then `path`
/// below the parent.
proof fn lemma_node_at_below(node: OctreeNode, k: int, path: Seq<u8>)
    requires
        0 <= k < 8,
        node.child(k) is Some,
    ensures
        node_at(node, seq![k as u8] + path) == node_at(node.child(k).unwrap(), path),
    decreases path.len(),
{
    let longer = seq![k as u8] + path;
    let c = node.child(k).unwrap();
    if path.len() == 0 {
        assert(longer.drop_last() =~= Seq::<u8>::empty());
        assert(longer.last() == k as u8);
        assert(node_at(node, longer.drop_last()) == Some(node));
        assert(node_at(node, longer) == node.child(k));
        assert(node_at(c, path) == Some(c));
    } else {
        lemma_node_at_below(node, k, path.drop_last());
        assert(longer.drop_last() =~= seq![k as u8] + path.drop_last());
        assert(longer.last() == path.last());
        assert(node_at(node, longer.drop_last()) == node_at(c, path.drop_last()));
    }
}

proof fn lemma_visible_children_named(node: OctreeNode, cam: CameraState, k: int, i: int)
    requires
        node.wf(),
        0 <= k <= 8,
        0 <= i < visible_children(node, cam, k).len(),
    ensures
        names_node(node, visible_children(node, cam, k)[i].node_id),
    decreases MAX_DEPTH - node.level, k,
{
    if k > 0 {
        let front = visible_children(node, cam, k - 1);
        if i < front.len() {
            lemma_visible_children_named(node, cam, k - 1, i);
        } else {
            match node.child(k - 1) {
                Some(c) => {
                    lemma_visible_named(c, cam, i - front.len());
                    lemma_names_below(node, k - 1, visible(c, cam)[i - front.len()].node_id);
                },
                None => {},
            }
        }
    }
}

/// Every candidate of a subtree carries the id of a node of the subtree.
pub proof fn lemma_visible_named(node: OctreeNode, cam: CameraState, i: int)
    requires
        node.wf(),
        0 <= i < visible(node, cam).len(),
    ensures
        names_node(node, visible(node, cam)[i].node_id),
    decreases MAX_DEPTH - node.level, 9int,
{
    let own = if should_use(node, cam) && node.points@.len() > 0 {
        seq![candidate_of(node, cam)]
    } else {
        Seq::<CandidateView>::empty()
    };
    if i < own.len() {
        assert(node_at(node, Seq::<u8>::empty()) == Some(node));
    } else {
        lemma_visible_children_named(node, cam, 8, i - own.len());
    }
}

/// The id of a node of the tree leads to that node.
pub proof fn lemma_lookup_named(tree: Octree, id: Seq<char>)
    requires
        tree.wf(),
        names_node(tree.root, id),
    ensures
        tree.lookup(id) is Some,
        tree.lookup(id).unwrap().node_id@ == id,
{
    let path = choose|path: Seq<u8>| #[trigger]
        node_at(tree.root, path) is Some && node_at(tree.root, path).unwrap().node_id@ == id;
    lemma_id_locates(tree, path);
}

/// Every id that is selected is the id of a node of the tree.
pub proof fn lemma_selection_named(tree: Octree, cam: CameraState, budget: int, i: int)
    requires
        tree.wf(),
        0 <= i < selection(tree.root, cam, budget).len(),
    ensures
        tree.lookup(selection(tree.root, cam, budget)[i]) is Some,
        tree.lookup(selection(tree.root, cam, budget)[i]).unwrap().node_id@ == selection(
            tree.root,
            cam,
            budget,
        )[i],
{
    broadcast use vstd::seq_lib::group_to_multiset_ensures;

    let found = visible(tree.root, cam);
    let sorted = by_priority(found);
    lemma_by_priority_permutes(found);
    lemma_accepted_bounds(sorted, budget, 0, 0);
    let c = sorted[i];
    assert(sorted.take(accepted(sorted, budget))[i] == c);
    assert(sorted.contains(c));
    assert(sorted.to_multiset().count(c) > 0);
    assert(found.to_multiset().count(c) > 0);
    assert(found.contains(c));
    let j = choose|j: int| 0 <= j < found.len() && found[j] == c;
    lemma_visible_named(tree.root, cam, j);
    lemma_lookup_named(tree, c.node_id);
}

/// Merging keeps the candidates of both sequences: each one as often as
/// in the two together.
pub proof fn lemma_merged_members(a: Seq<CandidateView>, b: Seq<CandidateView>)
    ensures
        merged(a, b).to_multiset() == a.to_multiset().add(b.to_multiset()),
        merged(a, b).len() == a.len() + b.len(),
    decreases a.len() + b.len(),
{
    broadcast use vstd::seq_lib::group_to_multiset_ensures;

    if a.len() == 0 {
        assert(a.to_multiset().add(b.to_multiset()) =~= b.to_multiset());
    } else if b.len() == 0 {
        assert(a.to_multiset().add(b.to_multiset()) =~= a.to_multiset());
    } else if not_after(a[0], b[0]) {
        lemma_merged_members(a.drop_first(), b);
        lemma_front_members(a);
        lemma_front_members(merged(a, b));
        assert(merged(a, b).drop_first() =~= merged(a.drop_first(), b));
        assert(merged(a, b).to_multiset() =~= a.to_multiset().add(b.to_multiset()));
    } else {
        lemma_merged_members(a, b.drop_first());
        lemma_front_members(b);
        lemma_front_members(merged(a, b));
        assert(merged(a, b).drop_first() =~= merged(a, b.drop_first()));
        assert(merged(a, b).to_multiset() =~= a.to_multiset().add(b.to_multiset()));
    }
}

/// A sequence holds its first candidate and those after it.
proof fn lemma_front_members(s: Seq<CandidateView>)
    requires
        s.len() > 0,
    ensures
        s.to_multiset() == s.drop_first().to_multiset().insert(s[0]),
{
    broadcast use vstd::seq_lib::group_to_multiset_ensures;

    vstd::seq_lib::lemma_multiset_commutative(seq![s[0]], s.drop_first());
    assert(seq![s[0]] + s.drop_first() =~= s);
    assert(seq![s[0]] =~= Seq::<CandidateView>::empty().push(s[0]));
    assert(seq![s[0]].to_multiset() =~= vstd::multiset::Multiset::<CandidateView>::empty().insert(
        s[0],
    ));
    assert(s.to_multiset() =~= s.drop_first().to_multiset().insert(s[0]));
}

/// Sorting by priority keeps the candidates: each one as often as before.
pub proof fn lemma_by_priority_permutes(s: Seq<CandidateView>)
    ensures
        by_priority(s).to_multiset() == s.to_multiset(),
        by_priority(s).len() == s.len(),
    decreases s.len(),
{
    if s.len() > 1 {
        let mid = (s.len() / 2) as int;
        lemma_by_priority_permutes(s.take(mid));
        lemma_by_priority_permutes(s.skip(mid));
        lemma_merged_members(by_priority(s.take(mid)), by_priority(s.skip(mid)));
        vstd::seq_lib::lemma_multiset_commutative(s.take(mid), s.skip(mid));
        assert(s.take(mid) + s.skip(mid) =~= s);
    }
}

/// Whether the candidates stand in the order of their priorities.
pub open spec fn in_priority_order(s: Seq<CandidateView>) -> bool {
    forall|i: int, j: int| 0 <= i < j < s.len() ==> not_after(#[trigger] s[i], #[trigger] s[j])
}

/// Whether distances are not negative and extents are positive.
pub open spec fn proper(s: Seq<CandidateView>) -> bool {
    forall|i: int| 0 <= i < s.len() ==> (#[trigger] s[i]).distance >= 0 && s[i].extent > 0
}

/// Priorities are ordered transitively.
proof fn lemma_not_after_transitive(a: CandidateView, b: CandidateView, c: CandidateView)
    requires
        a.distance >= 0 && a.extent > 0,
        b.distance >= 0 && b.extent > 0,
        c.distance >= 0 && c.extent > 0,
        not_after(a, b),
        not_after(b, c),
    ensures
        not_after(a, c),
{
    assert(a.distance * c.extent <= c.distance * a.extent) by (nonlinear_arith)
        requires
            a.distance * b.extent <= b.distance * a.extent,
            b.distance * c.extent <= c.distance * b.extent,
            a.distance >= 0 && a.extent > 0,
            b.distance >= 0 && b.extent > 0,
            c.distance >= 0 && c.extent > 0,
    ;
}

/// Whether `x` comes before every candidate of `s`.
pub open spec fn before_all(x: CandidateView, s: Seq<CandidateView>) -> bool {
    forall|i: int| 0 <= i < s.len() ==> not_after(x, #[trigger] s[i])
}

/// Merging two ordered sequences gives an ordered sequence, and what
/// comes before all of both comes before all of the merged.
proof fn lemma_merged_ordered(a: Seq<CandidateView>, b: Seq<CandidateView>)
    requires
        proper(a),
        proper(b),
        in_priority_order(a),
        in_priority_order(b),
    ensures
        proper(merged(a, b)),
        in_priority_order(merged(a, b)),
        forall|x: CandidateView| before_all(x, a) && before_all(x, b) ==> #[trigger] before_all(
            x,
            merged(a, b),
        ),
    decreases a.len() + b.len(),
{
    let r = merged(a, b);
    if a.len() > 0 && b.len() > 0 {
        let first = if not_after(a[0], b[0]) { a[0] } else { b[0] };
        let a2 = if not_after(a[0], b[0]) { a.drop_first() } else { a };
        let b2 = if not_after(a[0], b[0]) { b } else { b.drop_first() };
        let rest = merged(a2, b2);
        assert(r == seq![first] + rest);
        assert forall|i: int| 0 <= i < a2.len() implies (#[trigger] a2[i]).distance >= 0
            && a2[i].extent > 0 by {
            if not_after(a[0], b[0]) {
                assert(a2[i] == a[i + 1]);
            }
        }
        assert forall|i: int| 0 <= i < b2.len() implies (#[trigger] b2[i]).distance >= 0
            && b2[i].extent > 0 by {
            if !not_after(a[0], b[0]) {
                assert(b2[i] == b[i + 1]);
            }
        }
        assert forall|i: int, j: int| 0 <= i < j < a2.len() implies not_after(
            #[trigger] a2[i],
            #[trigger] a2[j],
        ) by {
            if not_after(a[0], b[0]) {
                assert(a2[i] == a[i + 1] && a2[j] == a[j + 1]);
            }
        }
        assert forall|i: int, j: int| 0 <= i < j < b2.len() implies not_after(
            #[trigger] b2[i],
            #[trigger] b2[j],
        ) by {
            if !not_after(a[0], b[0]) {
                assert(b2[i] == b[i + 1] && b2[j] == b[j + 1]);
            }
        }
        lemma_merged_ordered(a2, b2);
        // the first comes before all that is left
        assert(before_all(first, a2)) by {
            assert forall|i: int| 0 <= i < a2.len() implies not_after(first, #[trigger] a2[i]) by {
                if not_after(a[0], b[0]) {
                    assert(a2[i] == a[i + 1]);
                    assert(not_after(a[0], a[i + 1]));
                } else {
                    assert(not_after(b[0], a[0]));
                    if i > 0 {
                        assert(not_after(a[0], a[i]));
                        lemma_not_after_transitive(b[0], a[0], a[i]);
                    }
                }
            }
        }
        assert(before_all(first, b2)) by {
            assert forall|i: int| 0 <= i < b2.len() implies not_after(first, #[trigger] b2[i]) by {
                if not_after(a[0], b[0]) {
                    if i > 0 {
                        assert(not_after(b[0], b[i]));
                        lemma_not_after_transitive(a[0], b[0], b[i]);
                    }
                } else {
                    assert(b2[i] == b[i + 1]);
                    assert(not_after(b[0], b[i + 1]));
                }
            }
        }
        assert(before_all(first, rest));
        assert forall|i: int| 0 <= i < r.len() implies (#[trigger] r[i]).distance >= 0
            && r[i].extent > 0 by {
            if i > 0 {
                assert(r[i] == rest[i - 1]);
            } else {
                assert(first == a[0] || first == b[0]);
            }
        }
        assert forall|i: int, j: int| 0 <= i < j < r.len() implies not_after(
            #[trigger] r[i],
            #[trigger] r[j],
        ) by {
            assert(r[j] == rest[j - 1]);
            if i > 0 {
                assert(r[i] == rest[i - 1]);
            }
        }
        assert forall|x: CandidateView| before_all(x, a) && before_all(x, b) implies #[trigger] before_all(
            x,
            r,
        ) by {
            assert(before_all(x, a2)) by {
                assert forall|i: int| 0 <= i < a2.len() implies not_after(x, #[trigger] a2[i]) by {
                    if not_after(a[0], b[0]) {
                        assert(a2[i] == a[i + 1]);
                    }
                }
            }
            assert(before_all(x, b2)) by {
                assert forall|i: int| 0 <= i < b2.len() implies not_after(x, #[trigger] b2[i]) by {
                    if !not_after(a[0], b[0]) {
                        assert(b2[i] == b[i + 1]);
                    }
                }
            }
            assert(before_all(x, rest));
            assert forall|i: int| 0 <= i < r.len() implies not_after(x, #[trigger] r[i]) by {
                if i > 0 {
                    assert(r[i] == rest[i - 1]);
                } else {
                    assert(not_after(x, a[0]) && not_after(x, b[0]));
                }
            }
        }
    }
}

/// The candidate of a node has a distance that is not negative and an
/// extent that is positive.
pub proof fn lemma_candidate_proper(node: OctreeNode, cam: CameraState)
    ensures
        candidate_of(node, cam).distance >= 0,
        candidate_of(node, cam).extent >= MIN_EXTENT,
{
    let b = node.bounds;
    let dx = b.center_x() - cam.position[0];
    let dy = b.center_y() - cam.position[1];
    let dz = b.center_z() - cam.position[2];
    assert(dx * dx >= 0 && dy * dy >= 0 && dz * dz >= 0) by (nonlinear_arith);
    lemma_floor_sqrt_exists(distance_squared(cam, b));
}

proof fn lemma_visible_children_proper(node: OctreeNode, cam: CameraState, k: int)
    requires
        0 <= k <= 8,
    ensures
        proper(visible_children(node, cam, k)),
    decreases MAX_DEPTH - node.level, k,
{
    if k > 0 {
        lemma_visible_children_proper(node, cam, k - 1);
        let front = visible_children(node, cam, k - 1);
        let all = visible_children(node, cam, k);
        match node.child(k - 1) {
            Some(c) => {
                if node.level < c.level <= MAX_DEPTH {
                    lemma_visible_proper(c, cam);
                    assert forall|i: int| 0 <= i < all.len() implies (#[trigger] all[i]).distance
                        >= 0 && all[i].extent > 0 by {
                        if i < front.len() {
                            assert(all[i] == front[i]);
                        } else {
                            assert(all[i] == visible(c, cam)[i - front.len()]);
                        }
                    }
                } else {
                    assert(all =~= front);
                }
            },
            None => {
                assert(all =~= front);
            },
        }
    }
}

/// Every candidate of a subtree has a distance that is not negative and
/// an extent that is positive.
pub proof fn lemma_visible_proper(node: OctreeNode, cam: CameraState)
    ensures
        proper(visible(node, cam)),
    decreases MAX_DEPTH - node.level, 9int,
{
    let found = visible(node, cam);
    lemma_candidate_proper(node, cam);
    lemma_visible_children_proper(node, cam, 8);
    let own = if should_use(node, cam) && node.points@.len() > 0 {
        seq![candidate_of(node, cam)]
    } else {
        Seq::<CandidateView>::empty()
    };
    let below = visible_children(node, cam, 8);
    assert forall|i: int| 0 <= i < found.len() implies (#[trigger] found[i]).distance >= 0
        && found[i].extent > 0 by {
        if i < own.len() {
            assert(found[i] == candidate_of(node, cam));
        } else {
            assert(found[i] == below[i - own.len()]);
        }
    }
}

/// The candidates to draw stand in the order of their priorities: no
/// candidate has a greater priority than one that comes after it.
pub proof fn lemma_selection_ordered(root: OctreeNode, cam: CameraState, budget: int)
    ensures
        proper(selected(root, cam, budget)),
        in_priority_order(selected(root, cam, budget)),
{
    let found = visible(root, cam);
    let sorted = by_priority(found);
    lemma_visible_proper(root, cam);
    lemma_by_priority_ordered(found);
    lemma_accepted_bounds(sorted, budget, 0, 0);
    let chosen = selected(root, cam, budget);
    assert forall|i: int| 0 <= i < chosen.len() implies (#[trigger] chosen[i]).distance >= 0
        && chosen[i].extent > 0 by {
        assert(chosen[i] == sorted[i]);
    }
    assert forall|i: int, j: int| 0 <= i < j < chosen.len() implies not_after(
        #[trigger] chosen[i],
        #[trigger] chosen[j],
    ) by {
        assert(chosen[i] == sorted[i] && chosen[j] == sorted[j]);
    }
}

/// Sorting by priority puts the candidates in the order of their
/// priorities.
pub proof fn lemma_by_priority_ordered(s: Seq<CandidateView>)
    requires
        proper(s),
    ensures
        proper(by_priority(s)),
        in_priority_order(by_priority(s)),
    decreases s.len(),
{
    if s.len() > 1 {
        let mid = (s.len() / 2) as int;
        assert forall|i: int| 0 <= i < s.take(mid).len() implies (#[trigger] s.take(mid)[i]).distance
            >= 0 && s.take(mid)[i].extent > 0 by {
            assert(s.take(mid)[i] == s[i]);
        }
        assert forall|i: int| 0 <= i < s.skip(mid).len() implies (#[trigger] s.skip(mid)[i]).distance
            >= 0 && s.skip(mid)[i].extent > 0 by {
            assert(s.skip(mid)[i] == s[i + mid]);
        }
        lemma_by_priority_ordered(s.take(mid));
        lemma_by_priority_ordered(s.skip(mid));
        lemma_merged_ordered(by_priority(s.take(mid)), by_priority(s.skip(mid)));
    }
}

} // verus!
