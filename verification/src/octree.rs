//! The spatial index: a tree of cubic regions over 3D points.
//!
//! Inserted points live in a growable arena and are referenced by stable
//! slot indices; regions live in a second arena and reference their children
//! the same way.  Descent — for insertion and for neighbour queries alike —
//! always steps into the child whose *center* is nearest (by squared
//! Euclidean distance) to the point at hand.  This is a deliberate
//! approximation: it is not a bounding-box containment test, it simply
//! guarantees that descent terminates and has no boundary edge cases, at the
//! cost of occasionally routing a point into a region whose box does not
//! contain it.  Callers that need exact neighbourhoods must filter the
//! returned candidates by true distance.

use vstd::prelude::*;

use crate::geom::{dist2, dist_sq, fits, Point, COORD_LIMIT};

verus! {

/// An inserted point together with its opaque payload.
#[derive(Debug)]
pub struct PointWrapper<T> {
    pub point: Point,
    pub data: T,
}

/// One region of space: a leaf holds point slots, an internal node holds
/// exactly eight child regions.  `bounds` is (center, min corner, max
/// corner).
pub struct OctreeNode {
    pub points: Vec<usize>,
    pub children: Vec<usize>,
    pub bounds: (Point, Point, Point),
}

/// The spatial index itself: two arenas plus the root slot.
pub struct Octree<T> {
    pub max_points: usize,
    pub root: Option<usize>,
    pub nodes: Vec<OctreeNode>,
    pub points: Vec<PointWrapper<T>>,
}

/// Mathematical image of one region.
#[verifier::ext_equal]
pub ghost struct NodeV {
    pub center: Point,
    pub min: Point,
    pub max: Point,
    pub points: Seq<usize>,
    pub children: Seq<usize>,
}

/// Mathematical image of the whole index.
#[verifier::ext_equal]
pub ghost struct TreeV<T> {
    pub max_points: usize,
    pub root: Option<usize>,
    pub nodes: Seq<NodeV>,
    pub points: Seq<PointWrapper<T>>,
}

impl View for OctreeNode {
    type V = NodeV;

    open spec fn view(&self) -> NodeV {
        NodeV {
            center: self.bounds.0,
            min: self.bounds.1,
            max: self.bounds.2,
            points: self.points@,
            children: self.children@,
        }
    }
}

impl<T> View for Octree<T> {
    type V = TreeV<T>;

    open spec fn view(&self) -> TreeV<T> {
        TreeV {
            max_points: self.max_points,
            root: self.root,
            nodes: Seq::new(self.nodes@.len(), |i: int| self.nodes@[i]@),
            points: self.points@,
        }
    }
}

impl NodeV {
    /// A region with no children is a leaf.
    pub open spec fn is_leaf(self) -> bool {
        self.children.len() == 0
    }

    /// The minimum corner lies below the center, the center below the
    /// maximum corner, on every axis.
    pub open spec fn ordered(self) -> bool {
        self.min.x <= self.center.x <= self.max.x && self.min.y <= self.center.y <= self.max.y
            && self.min.z <= self.center.z <= self.max.z
    }
}

/// The eight octants are created front-to-back (z), top-to-bottom (y),
/// left-to-right (x); these predicates say which side of each axis the
/// `k`-th octant occupies.
pub open spec fn oct_high_x(k: int) -> bool {
    k % 2 == 1
}

pub open spec fn oct_high_y(k: int) -> bool {
    k % 4 < 2
}

pub open spec fn oct_high_z(k: int) -> bool {
    k < 4
}

/// Center coordinate of an octant along one axis: the midpoint of the
/// chosen half interval, computed with integer halving.
pub open spec fn axis_center(c: int, lo: int, hi: int, high: bool) -> int {
    if high {
        c + (hi - c) / 2
    } else {
        c - (c - lo) / 2
    }
}

pub open spec fn axis_min(c: int, lo: int, high: bool) -> int {
    if high {
        c
    } else {
        lo
    }
}

pub open spec fn axis_max(c: int, hi: int, high: bool) -> int {
    if high {
        hi
    } else {
        c
    }
}

/// Center of the `k`-th octant of the cuboid (c, mn, mx).
pub open spec fn octant_center(c: Point, mn: Point, mx: Point, k: int) -> Point {
    Point {
        x: axis_center(c.x as int, mn.x as int, mx.x as int, oct_high_x(k)) as i64,
        y: axis_center(c.y as int, mn.y as int, mx.y as int, oct_high_y(k)) as i64,
        z: axis_center(c.z as int, mn.z as int, mx.z as int, oct_high_z(k)) as i64,
    }
}

/// Minimum corner of the `k`-th octant.
pub open spec fn octant_min(c: Point, mn: Point, mx: Point, k: int) -> Point {
    Point {
        x: axis_min(c.x as int, mn.x as int, oct_high_x(k)) as i64,
        y: axis_min(c.y as int, mn.y as int, oct_high_y(k)) as i64,
        z: axis_min(c.z as int, mn.z as int, oct_high_z(k)) as i64,
    }
}

/// Maximum corner of the `k`-th octant.
pub open spec fn octant_max(c: Point, mn: Point, mx: Point, k: int) -> Point {
    Point {
        x: axis_max(c.x as int, mx.x as int, oct_high_x(k)) as i64,
        y: axis_max(c.y as int, mx.y as int, oct_high_y(k)) as i64,
        z: axis_max(c.z as int, mx.z as int, oct_high_z(k)) as i64,
    }
}

/// Octant corners stay ordered and inside the coordinate bound.
pub proof fn lemma_octant_props(c: Point, mn: Point, mx: Point, k: int)
    requires
        fits(c, COORD_LIMIT as int),
        fits(mn, COORD_LIMIT as int),
        fits(mx, COORD_LIMIT as int),
        mn.x <= c.x <= mx.x,
        mn.y <= c.y <= mx.y,
        mn.z <= c.z <= mx.z,
    ensures
        fits(octant_center(c, mn, mx, k), COORD_LIMIT as int),
        fits(octant_min(c, mn, mx, k), COORD_LIMIT as int),
        fits(octant_max(c, mn, mx, k), COORD_LIMIT as int),
        octant_min(c, mn, mx, k).x <= octant_center(c, mn, mx, k).x <= octant_max(c, mn, mx, k).x,
        octant_min(c, mn, mx, k).y <= octant_center(c, mn, mx, k).y <= octant_max(c, mn, mx, k).y,
        octant_min(c, mn, mx, k).z <= octant_center(c, mn, mx, k).z <= octant_max(c, mn, mx, k).z,
{
}

/// Squared distance from `p` to the center of octant `k`.
pub open spec fn octant_d2(c: Point, mn: Point, mx: Point, p: Point, k: int) -> int {
    dist2(octant_center(c, mn, mx, k), p)
}

/// Position and distance of the nearest octant center among the first `k`,
/// earliest winning ties.
pub open spec fn nearest_oct_from(c: Point, mn: Point, mx: Point, p: Point, k: int) -> (int, int)
    decreases k,
{
    if k <= 1 {
        (0, octant_d2(c, mn, mx, p, 0))
    } else {
        let prev = nearest_oct_from(c, mn, mx, p, k - 1);
        let d = octant_d2(c, mn, mx, p, k - 1);
        if d < prev.1 {
            (k - 1, d)
        } else {
            prev
        }
    }
}

/// The octant whose center is nearest `p`.
pub open spec fn nearest_octant(c: Point, mn: Point, mx: Point, p: Point) -> int {
    nearest_oct_from(c, mn, mx, p, 8).0
}

/// The chosen octant always lies among the first `k` scanned.
pub proof fn lemma_nearest_oct_range(c: Point, mn: Point, mx: Point, p: Point, k: int)
    requires
        1 <= k,
    ensures
        0 <= nearest_oct_from(c, mn, mx, p, k).0 < k,
    decreases k,
{
    if k > 1 {
        lemma_nearest_oct_range(c, mn, mx, p, k - 1);
    }
}

/// How many times `x` occurs in a slot list.
pub open spec fn occurrences(s: Seq<usize>, x: usize) -> nat
    decreases s.len(),
{
    if s.len() == 0 {
        0
    } else {
        occurrences(s.drop_last(), x) + (if s.last() == x {
            1nat
        } else {
            0nat
        })
    }
}

/// The slots of `slots` (in order) whose points route to octant `k`.
pub open spec fn assigned<T>(
    points: Seq<PointWrapper<T>>,
    slots: Seq<usize>,
    c: Point,
    mn: Point,
    mx: Point,
    k: int,
) -> Seq<usize>
    decreases slots.len(),
{
    if slots.len() == 0 {
        Seq::empty()
    } else {
        let pre = assigned(points, slots.drop_last(), c, mn, mx, k);
        if nearest_octant(c, mn, mx, points[slots.last() as int].point) == k {
            pre.push(slots.last())
        } else {
            pre
        }
    }
}

/// One step of the redistribution, spelled out: the last slot of the list
/// joins octant `k` exactly when its point routes there.
pub proof fn lemma_assigned_step<T>(
    points: Seq<PointWrapper<T>>,
    slots: Seq<usize>,
    c: Point,
    mn: Point,
    mx: Point,
    k: int,
)
    requires
        slots.len() > 0,
    ensures
        assigned(points, slots, c, mn, mx, k) == (if nearest_octant(
            c,
            mn,
            mx,
            points[slots.last() as int].point,
        ) == k {
            assigned(points, slots.drop_last(), c, mn, mx, k).push(slots.last())
        } else {
            assigned(points, slots.drop_last(), c, mn, mx, k)
        }),
{
}

/// Total occurrences of slot `x` across every region's list.
pub open spec fn slot_total(nodes: Seq<NodeV>, x: usize) -> nat
    decreases nodes.len(),
{
    if nodes.len() == 0 {
        0
    } else {
        slot_total(nodes.drop_last(), x) + occurrences(nodes.last().points, x)
    }
}

/// Appending one slot to a list raises its occurrence count by one.
proof fn lemma_occurrences_push(s: Seq<usize>, y: usize, x: usize)
    ensures
        occurrences(s.push(y), x) == occurrences(s, x) + (if y == x {
            1nat
        } else {
            0nat
        }),
{
    assert(s.push(y).drop_last() =~= s);
}

/// Appending one region adds exactly its own occurrences to the total.
proof fn lemma_slot_total_push(nodes: Seq<NodeV>, n: NodeV, x: usize)
    ensures
        slot_total(nodes.push(n), x) == slot_total(nodes, x) + occurrences(n.points, x),
{
    assert(nodes.push(n).drop_last() =~= nodes);
}

/// Replacing one region swaps its occurrences for the new region's.
proof fn lemma_slot_total_update(nodes: Seq<NodeV>, i: int, n: NodeV, x: usize)
    requires
        0 <= i < nodes.len(),
    ensures
        slot_total(nodes.update(i, n), x) + occurrences(nodes[i].points, x) == slot_total(
            nodes,
            x,
        ) + occurrences(n.points, x),
    decreases nodes.len(),
{
    let u = nodes.update(i, n);
    if i == nodes.len() - 1 {
        assert(u.drop_last() =~= nodes.drop_last());
        assert(u.last() == n);
    } else {
        assert(u.drop_last() =~= nodes.drop_last().update(i, n));
        assert(u.last() == nodes.last());
        lemma_slot_total_update(nodes.drop_last(), i, n, x);
    }
}

/// Totals distribute over concatenation.
proof fn lemma_slot_total_add(a: Seq<NodeV>, b: Seq<NodeV>, x: usize)
    ensures
        slot_total(a + b, x) == slot_total(a, x) + slot_total(b, x),
    decreases b.len(),
{
    if b.len() == 0 {
        assert(a + b =~= a);
    } else {
        assert((a + b).drop_last() =~= a + b.drop_last());
        assert((a + b).last() == b.last());
        lemma_slot_total_add(a, b.drop_last(), x);
    }
}

/// The total over exactly eight regions, spelled out.
proof fn lemma_slot_total_eight(c: Seq<NodeV>, x: usize)
    requires
        c.len() == 8,
    ensures
        slot_total(c, x) == occurrences(c[0].points, x) + occurrences(c[1].points, x)
            + occurrences(c[2].points, x) + occurrences(c[3].points, x) + occurrences(
            c[4].points,
            x,
        ) + occurrences(c[5].points, x) + occurrences(c[6].points, x) + occurrences(
            c[7].points,
            x,
        ),
{
    let c7 = c.drop_last();
    let c6 = c7.drop_last();
    let c5 = c6.drop_last();
    let c4 = c5.drop_last();
    let c3 = c4.drop_last();
    let c2 = c3.drop_last();
    let c1 = c2.drop_last();
    let c0 = c1.drop_last();
    assert(c.last() == c[7] && c7.last() == c[6] && c6.last() == c[5] && c5.last() == c[4]
        && c4.last() == c[3] && c3.last() == c[2] && c2.last() == c[1] && c1.last() == c[0]);
    assert(c0.len() == 0);
    assert(slot_total(c0, x) == 0);
    assert(slot_total(c1, x) == slot_total(c0, x) + occurrences(c[0].points, x));
    assert(slot_total(c2, x) == slot_total(c1, x) + occurrences(c[1].points, x));
    assert(slot_total(c3, x) == slot_total(c2, x) + occurrences(c[2].points, x));
    assert(slot_total(c4, x) == slot_total(c3, x) + occurrences(c[3].points, x));
    assert(slot_total(c5, x) == slot_total(c4, x) + occurrences(c[4].points, x));
    assert(slot_total(c6, x) == slot_total(c5, x) + occurrences(c[5].points, x));
    assert(slot_total(c7, x) == slot_total(c6, x) + occurrences(c[6].points, x));
    assert(slot_total(c, x) == slot_total(c7, x) + occurrences(c[7].points, x));
}

/// Redistribution conserves every slot exactly: each slot of the parent
/// list turns up in exactly one of the eight children, as many times as
/// the parent held it, and the children hold nothing else.
pub proof fn lemma_assigned_conserves<T>(
    points: Seq<PointWrapper<T>>,
    slots: Seq<usize>,
    c: Point,
    mn: Point,
    mx: Point,
    x: usize,
)
    ensures
        occurrences(assigned(points, slots, c, mn, mx, 0), x) + occurrences(
            assigned(points, slots, c, mn, mx, 1),
            x,
        ) + occurrences(assigned(points, slots, c, mn, mx, 2), x) + occurrences(
            assigned(points, slots, c, mn, mx, 3),
            x,
        ) + occurrences(assigned(points, slots, c, mn, mx, 4), x) + occurrences(
            assigned(points, slots, c, mn, mx, 5),
            x,
        ) + occurrences(assigned(points, slots, c, mn, mx, 6), x) + occurrences(
            assigned(points, slots, c, mn, mx, 7),
            x,
        ) == occurrences(slots, x),
    decreases slots.len(),
{
    if slots.len() > 0 {
        let head = slots.drop_last();
        lemma_assigned_conserves(points, head, c, mn, mx, x);
        lemma_nearest_oct_range(c, mn, mx, points[slots.last() as int].point, 8);
        lemma_assigned_step(points, slots, c, mn, mx, 0);
        lemma_assigned_step(points, slots, c, mn, mx, 1);
        lemma_assigned_step(points, slots, c, mn, mx, 2);
        lemma_assigned_step(points, slots, c, mn, mx, 3);
        lemma_assigned_step(points, slots, c, mn, mx, 4);
        lemma_assigned_step(points, slots, c, mn, mx, 5);
        lemma_assigned_step(points, slots, c, mn, mx, 6);
        lemma_assigned_step(points, slots, c, mn, mx, 7);
        let kk = nearest_octant(c, mn, mx, points[slots.last() as int].point);
        assert forall|k3: int| 0 <= k3 < 8 implies occurrences(
            #[trigger] assigned(points, slots, c, mn, mx, k3),
            x,
        ) == occurrences(assigned(points, head, c, mn, mx, k3), x) + (if k3 == kk && slots.last()
            == x {
            1nat
        } else {
            0nat
        }) by {
            if k3 == kk {
                let a = assigned(points, head, c, mn, mx, k3).push(slots.last());
                assert(a.drop_last() =~= assigned(points, head, c, mn, mx, k3));
            }
        }
    }
}

/// Subdivision loses no point and invents none: across the eight fresh
/// children, every slot occurs exactly as often as the split leaf held it.
pub proof fn lemma_subdivide_conserves<T>(t: TreeV<T>, ni: int, x: usize)
    requires
        0 <= ni < t.nodes.len(),
    ensures
        occurrences(t.subdivide_spec(ni).nodes[t.nodes.len() as int + 0].points, x) + occurrences(
            t.subdivide_spec(ni).nodes[t.nodes.len() as int + 1].points,
            x,
        ) + occurrences(t.subdivide_spec(ni).nodes[t.nodes.len() as int + 2].points, x)
            + occurrences(t.subdivide_spec(ni).nodes[t.nodes.len() as int + 3].points, x)
            + occurrences(t.subdivide_spec(ni).nodes[t.nodes.len() as int + 4].points, x)
            + occurrences(t.subdivide_spec(ni).nodes[t.nodes.len() as int + 5].points, x)
            + occurrences(t.subdivide_spec(ni).nodes[t.nodes.len() as int + 6].points, x)
            + occurrences(t.subdivide_spec(ni).nodes[t.nodes.len() as int + 7].points, x)
            == occurrences(t.nodes[ni].points, x),
        t.subdivide_spec(ni).nodes[ni].points.len() == 0,
{
    lemma_assigned_conserves(
        t.points,
        t.nodes[ni].points,
        t.nodes[ni].center,
        t.nodes[ni].min,
        t.nodes[ni].max,
        x,
    );
}

/// A split never changes how often any slot is listed across the whole
/// arena of regions: the parent empties, the eight children pick its
/// slots up exactly.
proof fn lemma_subdivide_preserves_totals<T>(t: TreeV<T>, ni: int, x: usize)
    requires
        0 <= ni < t.nodes.len(),
    ensures
        slot_total(t.subdivide_spec(ni).nodes, x) == slot_total(t.nodes, x),
{
    let parent = t.subdivide_parent(ni);
    let eight = t.subdivide_children(ni);
    let upd = t.nodes.update(ni, parent);
    assert(t.subdivide_spec(ni).nodes == upd + eight);
    lemma_slot_total_add(upd, eight, x);
    lemma_slot_total_update(t.nodes, ni, parent, x);
    assert(occurrences(parent.points, x) == 0);
    lemma_slot_total_eight(eight, x);
    lemma_assigned_conserves(
        t.points,
        t.nodes[ni].points,
        t.nodes[ni].center,
        t.nodes[ni].min,
        t.nodes[ni].max,
        x,
    );
}

/// Insertion keeps the index a partition of its points: the fresh slot is
/// listed in exactly one leaf, every older point stays listed exactly
/// once, and any subdivision the insertion triggers moves slots without
/// losing or duplicating one.
pub proof fn lemma_insert_preserves_partition<T>(pre: TreeV<T>, point: Point, data: T)
    requires
        pre.wf(),
        pre.root is Some,
        pre.partitioned(),
        pre.points.len() < usize::MAX,
    ensures
        pre.insert_spec(point, data).partitioned(),
{
    let root = pre.root.unwrap() as int;
    pre.lemma_descend_props(root, point);
    let lf = pre.descend(root, point);
    let slot = pre.points.len() as usize;
    let leafnode = NodeV {
        center: pre.nodes[lf].center,
        min: pre.nodes[lf].min,
        max: pre.nodes[lf].max,
        points: pre.nodes[lf].points.push(slot),
        children: pre.nodes[lf].children,
    };
    let mid = TreeV {
        max_points: pre.max_points,
        root: pre.root,
        points: pre.points.push(PointWrapper { point, data }),
        nodes: pre.nodes.update(lf, leafnode),
    };
    assert forall|x: usize|
        #![trigger slot_total(mid.nodes, x)]
        (x < mid.points.len() ==> slot_total(mid.nodes, x) == 1) && (x >= mid.points.len()
            ==> slot_total(mid.nodes, x) == 0) by {
        lemma_slot_total_update(pre.nodes, lf, leafnode, x);
        lemma_occurrences_push(pre.nodes[lf].points, slot, x);
        // name the old total so the partition hypothesis applies to it
        let total_before = slot_total(pre.nodes, x);
        assert(slot_total(mid.nodes, x) + occurrences(pre.nodes[lf].points, x) == slot_total(
            pre.nodes,
            x,
        ) + occurrences(leafnode.points, x));
        assert(occurrences(leafnode.points, x) == occurrences(pre.nodes[lf].points, x) + (
        if slot == x {
            1nat
        } else {
            0nat
        }));
        if x < pre.points.len() {
            assert(x != slot);
            assert(slot_total(mid.nodes, x) == 1);
        } else if x == slot {
            assert(slot_total(pre.nodes, x) == 0);
            assert(slot_total(mid.nodes, x) == 1);
        } else {
            assert(slot_total(pre.nodes, x) == 0);
            assert(slot_total(mid.nodes, x) == 0);
        }
    }
    assert(mid.partitioned());
    if pre.nodes[lf].points.len() + 1 > pre.max_points {
        assert(pre.insert_spec(point, data) == mid.subdivide_spec(lf));
        assert forall|x: usize|
            #![trigger slot_total(mid.subdivide_spec(lf).nodes, x)]
            (x < mid.subdivide_spec(lf).points.len() ==> slot_total(
                mid.subdivide_spec(lf).nodes,
                x,
            ) == 1) && (x >= mid.subdivide_spec(lf).points.len() ==> slot_total(
                mid.subdivide_spec(lf).nodes,
                x,
            ) == 0) by {
            lemma_subdivide_preserves_totals(mid, lf, x);
            let total_mid = slot_total(mid.nodes, x);
        }
    } else {
        assert(pre.insert_spec(point, data) == mid);
    }
}

/// Everything a redistribution hands to a child came from the parent.
pub proof fn lemma_assigned_subset<T>(
    points: Seq<PointWrapper<T>>,
    slots: Seq<usize>,
    c: Point,
    mn: Point,
    mx: Point,
    k: int,
)
    ensures
        forall|j: int|
            0 <= j < assigned(points, slots, c, mn, mx, k).len() ==> slots.contains(
                #[trigger] assigned(points, slots, c, mn, mx, k)[j],
            ),
    decreases slots.len(),
{
    if slots.len() > 0 {
        let head = slots.drop_last();
        lemma_assigned_subset(points, head, c, mn, mx, k);
        assert forall|j: int|
            0 <= j < assigned(points, slots, c, mn, mx, k).len() implies slots.contains(
            #[trigger] assigned(points, slots, c, mn, mx, k)[j],
        ) by {
            let a = assigned(points, slots, c, mn, mx, k);
            let pre = assigned(points, head, c, mn, mx, k);
            if j < pre.len() {
                let w = choose|i: int| 0 <= i < head.len() && head[i] == pre[j];
                assert(slots[w] == pre[j]);
            } else {
                assert(a[j] == slots.last());
                assert(slots[slots.len() - 1] == slots.last());
            }
        }
    }
}

impl<T> TreeV<T> {
    /// Structural soundness of the region at index `i`: a leaf or a full
    /// eight-way split, child references strictly increasing (children are
    /// always created after their parent, which bounds every descent),
    /// point slots valid, coordinates bounded and ordered.
    pub open spec fn wf_node(self, i: int) -> bool {
        let n = self.nodes[i];
        &&& n.children.len() == 0 || n.children.len() == 8
        &&& n.children.len() == 8 ==> n.points.len() == 0
        &&& forall|k: int|
            0 <= k < n.children.len() ==> i < #[trigger] n.children[k] < self.nodes.len()
        &&& forall|k: int| 0 <= k < n.points.len() ==> (#[trigger] n.points[k]) < self.points.len()
        &&& n.points.no_duplicates()
        &&& fits(n.center, COORD_LIMIT as int)
        &&& fits(n.min, COORD_LIMIT as int)
        &&& fits(n.max, COORD_LIMIT as int)
        &&& n.ordered()
    }

    /// The whole index is structurally sound.
    pub open spec fn wf(self) -> bool {
        &&& forall|i: int| 0 <= i < self.nodes.len() ==> self.wf_node(i)
        &&& match self.root {
            Some(r) => r < self.nodes.len(),
            None => true,
        }
        &&& forall|s: int|
            0 <= s < self.points.len() ==> fits(
                (#[trigger] self.points[s]).point,
                COORD_LIMIT as int,
            )
    }

    /// Squared distance from `p` to the center of the `k`-th child of
    /// region `i`.
    pub open spec fn child_d2(self, i: int, p: Point, k: int) -> int {
        dist2(self.nodes[self.nodes[i].children[k] as int].center, p)
    }

    /// Position and squared distance of the nearest center among the first
    /// `k` children of region `i`; the earliest child wins ties, exactly as
    /// the sequential scan selects the first strict improvement.
    pub open spec fn nearest_from(self, i: int, p: Point, k: int) -> (int, int)
        decreases k,
    {
        if k <= 1 {
            (0, self.child_d2(i, p, 0))
        } else {
            let prev = self.nearest_from(i, p, k - 1);
            let d = self.child_d2(i, p, k - 1);
            if d < prev.1 {
                (k - 1, d)
            } else {
                prev
            }
        }
    }

    /// Arena index of the child of region `i` whose center is nearest `p`.
    pub open spec fn nearest_child(self, i: int, p: Point) -> int {
        self.nodes[i].children[self.nearest_from(i, p, 8).0] as int
    }

    /// The winning position always lies among the scanned children.
    pub proof fn lemma_nearest_from_range(self, i: int, p: Point, k: int)
        requires
            1 <= k,
        ensures
            0 <= self.nearest_from(i, p, k).0 < k,
        decreases k,
    {
        if k > 1 {
            self.lemma_nearest_from_range(i, p, k - 1);
        }
    }

    /// The leaf reached from region `i` by always stepping to the child
    /// with the nearest center.
    pub open spec fn descend(self, i: int, p: Point) -> int
        decreases self.nodes.len() - i,
        when self.wf() && 0 <= i < self.nodes.len()
        via Self::descend_dec
    {
        if self.nodes[i].children.len() == 0 {
            i
        } else {
            self.descend(self.nearest_child(i, p), p)
        }
    }

    #[via_fn]
    proof fn descend_dec(self, i: int, p: Point) {
        if self.wf() && 0 <= i < self.nodes.len() && self.nodes[i].children.len() != 0 {
            self.lemma_nearest_from_range(i, p, 8);
            assert(self.wf_node(i));
        }
    }

    /// Descent lands on a leaf whose index is at least `i`.
    pub proof fn lemma_descend_props(self, i: int, p: Point)
        requires
            self.wf(),
            0 <= i < self.nodes.len(),
        ensures
            i <= self.descend(i, p) < self.nodes.len(),
            self.nodes[self.descend(i, p)].is_leaf(),
        decreases self.nodes.len() - i,
    {
        if self.nodes[i].children.len() != 0 {
            self.lemma_nearest_from_range(i, p, 8);
            assert(self.wf_node(i));
            self.lemma_descend_props(self.nearest_child(i, p), p);
        }
    }

    /// What the leaf at `ni` becomes when it splits: an internal node
    /// pointing at the eight regions appended after the current arena end.
    pub open spec fn subdivide_parent(self, ni: int) -> NodeV {
        NodeV {
            center: self.nodes[ni].center,
            min: self.nodes[ni].min,
            max: self.nodes[ni].max,
            points: Seq::empty(),
            children: Seq::new(8, |k: int| (self.nodes.len() + k) as usize),
        }
    }

    /// The eight octant children a split of `ni` appends, each holding the
    /// slots of the parent that route to it.
    pub open spec fn subdivide_children(self, ni: int) -> Seq<NodeV> {
        let c = self.nodes[ni].center;
        let mn = self.nodes[ni].min;
        let mx = self.nodes[ni].max;
        let slots = self.nodes[ni].points;
        Seq::new(
            8,
            |k: int|
                NodeV {
                    center: octant_center(c, mn, mx, k),
                    min: octant_min(c, mn, mx, k),
                    max: octant_max(c, mn, mx, k),
                    points: assigned(self.points, slots, c, mn, mx, k),
                    children: Seq::empty(),
                },
        )
    }

    /// The tree after an eight-way split of leaf `ni`: eight fresh octant
    /// children are appended, the leaf becomes an internal node, and every
    /// slot it held is moved to the child with the nearest center.
    pub open spec fn subdivide_spec(self, ni: int) -> TreeV<T> {
        TreeV {
            max_points: self.max_points,
            root: self.root,
            points: self.points,
            nodes: self.nodes.update(ni, self.subdivide_parent(ni)) + self.subdivide_children(ni),
        }
    }

    /// No region can list more slots than the arena holds points, since a
    /// region's slot list never repeats itself.
    pub proof fn lemma_node_len_bounded(self, i: int)
        requires
            self.wf(),
            0 <= i < self.nodes.len(),
        ensures
            self.nodes[i].points.len() <= self.points.len(),
    {
        assert(self.wf_node(i));
        lemma_nodup_len_bound(self.nodes[i].points, self.points.len() as int);
    }

    /// Every stored point is listed in exactly one region, and nothing
    /// else is listed anywhere: however often leaves split, the index
    /// loses no point and duplicates none.
    pub open spec fn partitioned(self) -> bool {
        forall|x: usize|
            #![trigger slot_total(self.nodes, x)]
            (x < self.points.len() ==> slot_total(self.nodes, x) == 1) && (x >= self.points.len()
                ==> slot_total(self.nodes, x) == 0)
    }

    /// Every leaf holds at most `max_points` slots.
    pub open spec fn leaves_bounded(self) -> bool {
        forall|i: int|
            0 <= i < self.nodes.len() && (#[trigger] self.nodes[i]).is_leaf()
                ==> self.nodes[i].points.len() <= self.max_points
    }

    /// The tree after inserting one point: the pair goes to the point
    /// arena, its slot is appended to the leaf that nearest-center descent
    /// selects, and a leaf pushed past capacity splits at once.
    pub open spec fn insert_spec(self, point: Point, data: T) -> TreeV<T> {
        let leaf = self.descend(self.root.unwrap() as int, point);
        let slot = self.points.len() as usize;
        let mid = TreeV {
            max_points: self.max_points,
            root: self.root,
            points: self.points.push(PointWrapper { point, data }),
            nodes: self.nodes.update(
                leaf,
                NodeV {
                    center: self.nodes[leaf].center,
                    min: self.nodes[leaf].min,
                    max: self.nodes[leaf].max,
                    points: self.nodes[leaf].points.push(slot),
                    children: self.nodes[leaf].children,
                },
            ),
        };
        if self.nodes[leaf].points.len() + 1 > self.max_points {
            mid.subdivide_spec(leaf)
        } else {
            mid
        }
    }
}

/// The node at `base + kk` is the empty `kk`-th octant child of the cuboid
/// (c, mn, mx) except for its point list, which holds exactly the slots of
/// `prefix` routed to that octant.
pub open spec fn octant_node_at<T>(
    t: TreeV<T>,
    pts: Seq<PointWrapper<T>>,
    prefix: Seq<usize>,
    base: int,
    kk: int,
    c: Point,
    mn: Point,
    mx: Point,
) -> bool {
    &&& t.nodes[base + kk].center == octant_center(c, mn, mx, kk)
    &&& t.nodes[base + kk].min == octant_min(c, mn, mx, kk)
    &&& t.nodes[base + kk].max == octant_max(c, mn, mx, kk)
    &&& t.nodes[base + kk].children.len() == 0
    &&& t.nodes[base + kk].points == assigned(pts, prefix, c, mn, mx, kk)
}

/// Halve a non-negative length.
fn half_nonneg(a: i64) -> (r: i64)
    requires
        0 <= a,
    ensures
        r == a as int / 2,
        0 <= r <= a,
{
    ((a as u64) / 2) as i64
}

/// Bounds (center, min, max) of the `k`-th octant of the cuboid
/// (c, mn, mx).
fn octant_bounds(c: &Point, mn: &Point, mx: &Point, k: usize) -> (r: (Point, Point, Point))
    requires
        k < 8,
        fits(*c, COORD_LIMIT as int),
        fits(*mn, COORD_LIMIT as int),
        fits(*mx, COORD_LIMIT as int),
        mn.x <= c.x <= mx.x,
        mn.y <= c.y <= mx.y,
        mn.z <= c.z <= mx.z,
    ensures
        r.0 == octant_center(*c, *mn, *mx, k as int),
        r.1 == octant_min(*c, *mn, *mx, k as int),
        r.2 == octant_max(*c, *mn, *mx, k as int),
        fits(r.0, COORD_LIMIT as int),
        fits(r.1, COORD_LIMIT as int),
        fits(r.2, COORD_LIMIT as int),
        r.1.x <= r.0.x <= r.2.x,
        r.1.y <= r.0.y <= r.2.y,
        r.1.z <= r.0.z <= r.2.z,
{
    let hx = k % 2 == 1;
    let hy = k % 4 < 2;
    let hz = k < 4;
    let center = Point {
        x: if hx { c.x + half_nonneg(mx.x - c.x) } else { c.x - half_nonneg(c.x - mn.x) },
        y: if hy { c.y + half_nonneg(mx.y - c.y) } else { c.y - half_nonneg(c.y - mn.y) },
        z: if hz { c.z + half_nonneg(mx.z - c.z) } else { c.z - half_nonneg(c.z - mn.z) },
    };
    let minp = Point {
        x: if hx { c.x } else { mn.x },
        y: if hy { c.y } else { mn.y },
        z: if hz { c.z } else { mn.z },
    };
    let maxp = Point {
        x: if hx { mx.x } else { c.x },
        y: if hy { mx.y } else { c.y },
        z: if hz { mx.z } else { c.z },
    };
    (center, minp, maxp)
}

/// The octant of (c, mn, mx) whose center is nearest `p`: the first of the
/// eight with the strictly smallest squared distance.
fn nearest_octant_exec(c: &Point, mn: &Point, mx: &Point, p: &Point) -> (r: usize)
    requires
        fits(*c, COORD_LIMIT as int),
        fits(*mn, COORD_LIMIT as int),
        fits(*mx, COORD_LIMIT as int),
        mn.x <= c.x <= mx.x,
        mn.y <= c.y <= mx.y,
        mn.z <= c.z <= mx.z,
        fits(*p, COORD_LIMIT as int),
    ensures
        r == nearest_octant(*c, *mn, *mx, *p),
        r < 8,
{
    let (oc0, _, _) = octant_bounds(c, mn, mx, 0);
    let mut best_k: usize = 0;
    let mut best_d: i64 = dist_sq(&oc0, p);
    let mut k: usize = 1;
    while k < 8
        invariant
            1 <= k <= 8,
            best_k < k,
            fits(*c, COORD_LIMIT as int),
            fits(*mn, COORD_LIMIT as int),
            fits(*mx, COORD_LIMIT as int),
            mn.x <= c.x <= mx.x,
            mn.y <= c.y <= mx.y,
            mn.z <= c.z <= mx.z,
            fits(*p, COORD_LIMIT as int),
            (best_k as int, best_d as int) == nearest_oct_from(*c, *mn, *mx, *p, k as int),
        decreases 8 - k,
    {
        let (ock, _, _) = octant_bounds(c, mn, mx, k);
        let d = dist_sq(&ock, p);
        if d < best_d {
            best_k = k;
            best_d = d;
        }
        k = k + 1;
    }
    best_k
}

/// Appending a slot larger than everything in a duplicate-free list keeps
/// it duplicate-free.
proof fn lemma_push_fresh_nodup(s: Seq<usize>, x: usize)
    requires
        s.no_duplicates(),
        forall|k: int| 0 <= k < s.len() ==> (#[trigger] s[k]) < x,
    ensures
        s.push(x).no_duplicates(),
{
    let t = s.push(x);
    assert forall|p: int, q: int| 0 <= p < q < t.len() implies t[p] != t[q] by {
        if q == t.len() - 1 {
            assert(t[p] == s[p]);
        }
    }
}

/// Redistribution keeps each child's slot list duplicate-free.
proof fn lemma_assigned_nodup<T>(
    points: Seq<PointWrapper<T>>,
    slots: Seq<usize>,
    c: Point,
    mn: Point,
    mx: Point,
    k: int,
)
    requires
        slots.no_duplicates(),
    ensures
        assigned(points, slots, c, mn, mx, k).no_duplicates(),
    decreases slots.len(),
{
    if slots.len() > 0 {
        let head = slots.drop_last();
        assert(head.no_duplicates());
        lemma_assigned_nodup(points, head, c, mn, mx, k);
        lemma_assigned_subset(points, head, c, mn, mx, k);
        let pre = assigned(points, head, c, mn, mx, k);
        let a = assigned(points, slots, c, mn, mx, k);
        if nearest_octant(c, mn, mx, points[slots.last() as int].point) == k {
            assert(a == pre.push(slots.last()));
            assert forall|p: int, q: int| 0 <= p < q < a.len() implies a[p] != a[q] by {
                if q == a.len() - 1 {
                    assert(head.contains(pre[p]));
                    let w = choose|w: int| 0 <= w < head.len() && head[w] == pre[p];
                    assert(slots[w] == pre[p]);
                    assert(slots[w] != slots[slots.len() - 1]);
                }
            }
        }
    }
}

/// A duplicate-free list of slot indices below `bound` cannot be longer
/// than `bound` itself.
proof fn lemma_nodup_len_bound(s: Seq<usize>, bound: int)
    requires
        s.no_duplicates(),
        0 <= bound,
        forall|k: int| 0 <= k < s.len() ==> (#[trigger] s[k]) < bound,
    ensures
        s.len() <= bound,
{
    let f = |x: usize| x as int;
    assert(vstd::relations::injective(f));
    s.lemma_no_duplicates_injective(f);
    let si = s.map_values(f);
    si.unique_seq_to_set();
    vstd::set_lib::lemma_int_range(0, bound);
    assert forall|e: int| si.to_set().contains(e) implies vstd::set_lib::set_int_range(
        0,
        bound,
    ).contains(e) by {
        assert(si.contains(e));
        let w = choose|w: int| 0 <= w < si.len() && si[w] == e;
        assert(s[w] < bound);
    }
    assert(si.to_set().subset_of(vstd::set_lib::set_int_range(0, bound)));
    vstd::set_lib::lemma_len_subset(si.to_set(), vstd::set_lib::set_int_range(0, bound));
}

/// An insertion that does not trigger a subdivision leaves every leaf at
/// or below capacity, provided every leaf was within capacity before.
/// (After a subdivision the guarantee is the weaker one of
/// `lemma_insert_split_shape`: the redistribution may crowd one child.)
pub proof fn lemma_insert_keeps_leaves_bounded<T>(pre: TreeV<T>, point: Point, data: T)
    requires
        pre.wf(),
        pre.root is Some,
        pre.leaves_bounded(),
        pre.nodes[pre.descend(pre.root.unwrap() as int, point)].points.len() + 1
            <= pre.max_points,
    ensures
        pre.insert_spec(point, data).leaves_bounded(),
{
    let leaf = pre.descend(pre.root.unwrap() as int, point);
    pre.lemma_descend_props(pre.root.unwrap() as int, point);
    let post = pre.insert_spec(point, data);
    assert forall|i: int|
        0 <= i < post.nodes.len() && (#[trigger] post.nodes[i]).is_leaf() implies post.nodes[i].points.len()
        <= post.max_points by {
        if i != leaf {
            assert(post.nodes[i] == pre.nodes[i]);
        }
    }
}

/// An insertion that does push a leaf past capacity subdivides it on the
/// spot: the leaf comes out of the insertion with exactly eight children
/// and no points of its own.
pub proof fn lemma_insert_split_shape<T>(pre: TreeV<T>, point: Point, data: T)
    requires
        pre.wf(),
        pre.root is Some,
        pre.nodes[pre.descend(pre.root.unwrap() as int, point)].points.len() + 1
            > pre.max_points,
    ensures
        pre.insert_spec(point, data).nodes[pre.descend(pre.root.unwrap() as int, point)].children.len()
            == 8,
        pre.insert_spec(point, data).nodes[pre.descend(pre.root.unwrap() as int, point)].points.len()
            == 0,
{
    pre.lemma_descend_props(pre.root.unwrap() as int, point);
}

/// Construction is deterministic: the tree after an insertion is a
/// function of the previous tree and the inserted pair alone, so
/// rebuilding an index from an unchanged snapshot reproduces the same
/// structure node for node.
pub proof fn lemma_insert_deterministic<T>(a: TreeV<T>, b: TreeV<T>, point: Point, data: T)
    requires
        a == b,
    ensures
        a.insert_spec(point, data) == b.insert_spec(point, data),
{
}

impl<T> Octree<T> {
    /// Structural soundness, lifted to the executable type.
    pub open spec fn wf(&self) -> bool {
        self@.wf()
    }

    /// A fresh index: no regions, no points, no root, the given leaf
    /// capacity.
    pub fn new(max_points: usize) -> (r: Self)
        ensures
            r@.max_points == max_points,
            r@.root is None,
            r@.nodes.len() == 0,
            r@.points.len() == 0,
            r.wf(),
    {
        let r = Octree { max_points, root: None, nodes: Vec::new(), points: Vec::new() };
        proof {
            assert(r@.nodes =~= Seq::<NodeV>::empty());
        }
        r
    }

    /// Establish the root region spanning the given cuboid.  Must be called
    /// before any insertion or query.
    pub fn create_root(&mut self, center: Point, min: Point, max: Point) -> (r: usize)
        requires
            old(self).wf(),
            fits(center, COORD_LIMIT as int),
            fits(min, COORD_LIMIT as int),
            fits(max, COORD_LIMIT as int),
            min.x <= center.x <= max.x,
            min.y <= center.y <= max.y,
            min.z <= center.z <= max.z,
        ensures
            final(self).wf(),
            r == old(self)@.nodes.len(),
            final(self)@.root == Some(r),
            final(self)@.max_points == old(self)@.max_points,
            final(self)@.points == old(self)@.points,
            final(self)@.nodes == old(self)@.nodes.push(
                NodeV { center, min, max, points: Seq::empty(), children: Seq::empty() },
            ),
    {
        let index = self.nodes.len();
        self.nodes.push(OctreeNode { points: Vec::new(), children: Vec::new(), bounds: (center, min, max) });
        self.root = Some(index);
        proof {
            assert(self@.nodes =~= old(self)@.nodes.push(
                NodeV { center, min, max, points: Seq::empty(), children: Seq::empty() },
            ));
            assert forall|i: int| 0 <= i < self@.nodes.len() implies self@.wf_node(i) by {
                if i < old(self)@.nodes.len() {
                    assert(old(self)@.wf_node(i));
                }
            }
            assert forall|s: int| 0 <= s < self@.points.len() implies fits(
                (#[trigger] self@.points[s]).point,
                COORD_LIMIT as int,
            ) by {
                assert(self@.points[s] == old(self)@.points[s]);
            }
        }
        index
    }

    /// Whether `point` lies inside the bounding box of `node`.  (The
    /// routing policy deliberately does not use this test; it is offered
    /// for callers that want to inspect the geometry.)
    pub fn is_point_in_bounds(node: &OctreeNode, point: &Point) -> (r: bool)
        ensures
            r == (node@.min.x <= point.x <= node@.max.x && node@.min.y <= point.y <= node@.max.y
                && node@.min.z <= point.z <= node@.max.z),
    {
        let (_, min, max) = &node.bounds;
        point.x >= min.x && point.x <= max.x && point.y >= min.y && point.y <= max.y
            && point.z >= min.z && point.z <= max.z
    }

    /// The child of region `i` whose center is nearest `p` (first of eight
    /// wins ties).
    fn nearest_child_exec(&self, i: usize, p: &Point) -> (r: usize)
        requires
            self.wf(),
            i < self@.nodes.len(),
            self@.nodes[i as int].children.len() == 8,
            fits(*p, COORD_LIMIT as int),
        ensures
            r == self@.nearest_child(i as int, *p),
            i < r < self@.nodes.len(),
    {
        proof {
            assert(self@.wf_node(i as int));
        }
        let mut best_k: usize = 0;
        let c0 = self.nodes[i].children[0];
        proof {
            assert(self@.wf_node(self@.nodes[i as int].children[0] as int));
        }
        let mut best_d: i64 = dist_sq(&self.nodes[c0].bounds.0, p);
        let mut k: usize = 1;
        while k < 8
            invariant
                self.wf(),
                i < self@.nodes.len(),
                self@.nodes[i as int].children.len() == 8,
                fits(*p, COORD_LIMIT as int),
                1 <= k <= 8,
                best_k < k,
                (best_k as int, best_d as int) == self@.nearest_from(i as int, *p, k as int),
            decreases 8 - k,
        {
            proof {
                assert(self@.wf_node(i as int));
                assert(self@.wf_node(self@.nodes[i as int].children[k as int] as int));
            }
            let ck = self.nodes[i].children[k];
            let d = dist_sq(&self.nodes[ck].bounds.0, p);
            if d < best_d {
                best_k = k;
                best_d = d;
            }
            k = k + 1;
        }
        proof {
            self@.lemma_nearest_from_range(i as int, *p, 8);
            assert(self@.wf_node(i as int));
        }
        self.nodes[i].children[best_k]
    }

    /// Walk from the root to the leaf that nearest-center routing selects
    /// for `p`.
    fn descend_to_leaf(&self, p: &Point) -> (r: usize)
        requires
            self.wf(),
            self@.root is Some,
            fits(*p, COORD_LIMIT as int),
        ensures
            r == self@.descend(self@.root.unwrap() as int, *p),
            r < self@.nodes.len(),
            self@.nodes[r as int].is_leaf(),
    {
        let root = self.root.unwrap();
        let mut cur = root;
        while self.nodes[cur].children.len() > 0
            invariant
                self.wf(),
                cur < self@.nodes.len(),
                fits(*p, COORD_LIMIT as int),
                self@.descend(cur as int, *p) == self@.descend(root as int, *p),
            decreases self@.nodes.len() - cur,
        {
            proof {
                assert(self@.wf_node(cur as int));
            }
            cur = self.nearest_child_exec(cur, p);
        }
        cur
    }

    /// Split the leaf `node_index` into eight octant children and move
    /// every slot it held to the child with the nearest center.  Triggered
    /// exactly once, synchronously, when an insertion pushes a leaf past
    /// its capacity.
    fn subdivide(&mut self, node_index: usize)
        requires
            old(self).wf(),
            node_index < old(self)@.nodes.len(),
            old(self)@.nodes[node_index as int].is_leaf(),
        ensures
            final(self).wf(),
            final(self)@ == old(self)@.subdivide_spec(node_index as int),
    {
        let ni = node_index;
        proof {
            assert(old(self)@.wf_node(ni as int));
        }
        let (c, mn, mx) = self.nodes[ni].bounds;
        let base = self.nodes.len();
        let ghost pts = old(self)@.points;
        let ghost slots = old(self)@.nodes[ni as int].points;

        // Route every held slot to the octant with the nearest center,
        // collecting the eight new point lists first.
        let mut b0: Vec<usize> = Vec::new();
        let mut b1: Vec<usize> = Vec::new();
        let mut b2: Vec<usize> = Vec::new();
        let mut b3: Vec<usize> = Vec::new();
        let mut b4: Vec<usize> = Vec::new();
        let mut b5: Vec<usize> = Vec::new();
        let mut b6: Vec<usize> = Vec::new();
        let mut b7: Vec<usize> = Vec::new();
        let n = self.nodes[ni].points.len();
        let mut si: usize = 0;
        while si < n
            invariant
                si <= n,
                ni < self@.nodes.len(),
                self@.nodes == old(self)@.nodes,
                self@.points == old(self)@.points,
                old(self).wf(),
                pts == old(self)@.points,
                slots == old(self)@.nodes[ni as int].points,
                n == slots.len(),
                c == old(self)@.nodes[ni as int].center,
                mn == old(self)@.nodes[ni as int].min,
                mx == old(self)@.nodes[ni as int].max,
                fits(c, COORD_LIMIT as int),
                fits(mn, COORD_LIMIT as int),
                fits(mx, COORD_LIMIT as int),
                mn.x <= c.x <= mx.x,
                mn.y <= c.y <= mx.y,
                mn.z <= c.z <= mx.z,
                b0@ == assigned(pts, slots.take(si as int), c, mn, mx, 0),
                b1@ == assigned(pts, slots.take(si as int), c, mn, mx, 1),
                b2@ == assigned(pts, slots.take(si as int), c, mn, mx, 2),
                b3@ == assigned(pts, slots.take(si as int), c, mn, mx, 3),
                b4@ == assigned(pts, slots.take(si as int), c, mn, mx, 4),
                b5@ == assigned(pts, slots.take(si as int), c, mn, mx, 5),
                b6@ == assigned(pts, slots.take(si as int), c, mn, mx, 6),
                b7@ == assigned(pts, slots.take(si as int), c, mn, mx, 7),
            decreases n - si,
        {
            proof {
                assert(old(self)@.wf_node(ni as int));
            }
            let s = self.nodes[ni].points[si];
            let p = self.points[s].point;
            let kk = nearest_octant_exec(&c, &mn, &mx, &p);
            let si_next = si + 1;
            proof {
                let prefix = slots.take(si as int);
                let next = slots.take(si_next as int);
                assert(next.drop_last() =~= prefix);
                assert(next.last() == s);
                assert(p == pts[s as int].point);
                lemma_assigned_step(pts, next, c, mn, mx, 0);
                lemma_assigned_step(pts, next, c, mn, mx, 1);
                lemma_assigned_step(pts, next, c, mn, mx, 2);
                lemma_assigned_step(pts, next, c, mn, mx, 3);
                lemma_assigned_step(pts, next, c, mn, mx, 4);
                lemma_assigned_step(pts, next, c, mn, mx, 5);
                lemma_assigned_step(pts, next, c, mn, mx, 6);
                lemma_assigned_step(pts, next, c, mn, mx, 7);
            }
            if kk == 0 {
                b0.push(s);
            } else if kk == 1 {
                b1.push(s);
            } else if kk == 2 {
                b2.push(s);
            } else if kk == 3 {
                b3.push(s);
            } else if kk == 4 {
                b4.push(s);
            } else if kk == 5 {
                b5.push(s);
            } else if kk == 6 {
                b6.push(s);
            } else {
                b7.push(s);
            }
            si = si_next;
        }
        proof {
            assert(slots.take(n as int) =~= slots);
        }

        // Append the eight children, complete with their point lists.
        let ob0 = octant_bounds(&c, &mn, &mx, 0);
        self.nodes.push(OctreeNode { points: b0, children: Vec::new(), bounds: ob0 });
        let ob1 = octant_bounds(&c, &mn, &mx, 1);
        self.nodes.push(OctreeNode { points: b1, children: Vec::new(), bounds: ob1 });
        let ob2 = octant_bounds(&c, &mn, &mx, 2);
        self.nodes.push(OctreeNode { points: b2, children: Vec::new(), bounds: ob2 });
        let ob3 = octant_bounds(&c, &mn, &mx, 3);
        self.nodes.push(OctreeNode { points: b3, children: Vec::new(), bounds: ob3 });
        let ob4 = octant_bounds(&c, &mn, &mx, 4);
        self.nodes.push(OctreeNode { points: b4, children: Vec::new(), bounds: ob4 });
        let ob5 = octant_bounds(&c, &mn, &mx, 5);
        self.nodes.push(OctreeNode { points: b5, children: Vec::new(), bounds: ob5 });
        let ob6 = octant_bounds(&c, &mn, &mx, 6);
        self.nodes.push(OctreeNode { points: b6, children: Vec::new(), bounds: ob6 });
        let ob7 = octant_bounds(&c, &mn, &mx, 7);
        self.nodes.push(OctreeNode { points: b7, children: Vec::new(), bounds: ob7 });

        // Convert the parent into an internal node pointing at them.
        proof {
            vstd::std_specs::vec::axiom_spec_len(&self.nodes);
        }
        let mut children: Vec<usize> = Vec::new();
        children.push(base);
        children.push(base + 1);
        children.push(base + 2);
        children.push(base + 3);
        children.push(base + 4);
        children.push(base + 5);
        children.push(base + 6);
        children.push(base + 7);
        let mut taken = OctreeNode { points: Vec::new(), children, bounds: (c, mn, mx) };
        core::mem::swap(&mut taken, &mut self.nodes[ni]);

        // The state now matches the specification of subdivision, and it
        // is well formed again.
        proof {
            let post = old(self)@.subdivide_spec(ni as int);
            assert forall|j: int| 0 <= j < self@.nodes.len() implies self@.nodes[j]
                == post.nodes[j] by {
                if j < base && j != ni {
                    assert(self@.nodes[j] =~= post.nodes[j]);
                } else if j == ni {
                    assert(self@.nodes[j].points =~= post.nodes[j].points);
                    assert(self@.nodes[j].children =~= post.nodes[j].children);
                    assert(self@.nodes[j] =~= post.nodes[j]);
                } else {
                    assert(self@.nodes[j] =~= post.nodes[j]);
                }
            }
            assert(self@.nodes =~= post.nodes);
            assert(self@ =~= post);
            assert forall|i: int| 0 <= i < self@.nodes.len() implies self@.wf_node(i) by {
                if i < base && i != ni {
                    assert(old(self)@.wf_node(i));
                } else if i == ni {
                    assert(old(self)@.wf_node(i));
                } else {
                    let kk = i - base;
                    lemma_assigned_subset(pts, slots, c, mn, mx, kk);
                    lemma_assigned_nodup(pts, slots, c, mn, mx, kk);
                    lemma_octant_props(c, mn, mx, kk);
                    assert(old(self)@.wf_node(ni as int));
                    assert forall|j: int| 0 <= j < self@.nodes[i].points.len() implies (
                    #[trigger] self@.nodes[i].points[j]) < self@.points.len() by {
                        assert(slots.contains(self@.nodes[i].points[j]));
                        let w = choose|w: int|
                            0 <= w < slots.len() && slots[w] == self@.nodes[i].points[j];
                        assert(old(self)@.nodes[ni as int].points[w] == self@.nodes[i].points[j]);
                    }
                }
            }
        }
    }

    /// Store a point with its payload and return the slot that now refers
    /// to it.  The slot is appended to the leaf selected by nearest-center
    /// descent from the root; a leaf pushed past capacity is subdivided on
    /// the spot.
    pub fn insert(&mut self, point: Point, data: T) -> (r: usize)
        requires
            old(self).wf(),
            old(self)@.root is Some,
            fits(point, COORD_LIMIT as int),
        ensures
            final(self).wf(),
            r == old(self)@.points.len(),
            final(self)@ == old(self)@.insert_spec(point, data),
    {
        let r = self.points.len();
        let leaf = self.descend_to_leaf(&point);
        proof {
            old(self)@.lemma_descend_props(old(self)@.root.unwrap() as int, point);
        }
        self.points.push(PointWrapper { point, data });
        self.nodes[leaf].points.push(r);
        proof {
            // The tree now matches the intermediate state of the insertion
            // specification, and it is still well formed.
            let pre = old(self)@;
            let lf = leaf as int;
            let mid = TreeV {
                max_points: pre.max_points,
                root: pre.root,
                points: pre.points.push(PointWrapper { point, data }),
                nodes: pre.nodes.update(
                    lf,
                    NodeV {
                        center: pre.nodes[lf].center,
                        min: pre.nodes[lf].min,
                        max: pre.nodes[lf].max,
                        points: pre.nodes[lf].points.push(r),
                        children: pre.nodes[lf].children,
                    },
                ),
            };
            assert forall|j: int| 0 <= j < self@.nodes.len() implies self@.nodes[j]
                == mid.nodes[j] by {
                if j == lf {
                    assert(self@.nodes[j] =~= mid.nodes[j]);
                } else {
                    assert(self@.nodes[j] =~= mid.nodes[j]);
                }
            }
            assert(self@.nodes =~= mid.nodes);
            assert(self@ =~= mid);
            assert forall|i: int| 0 <= i < self@.nodes.len() implies self@.wf_node(i) by {
                assert(pre.wf_node(i));
                if i == lf {
                    lemma_push_fresh_nodup(pre.nodes[lf].points, r);
                }
            }
            assert(self.wf());
        }
        if self.nodes[leaf].points.len() > self.max_points {
            self.subdivide(leaf);
        }
        r
    }

    /// All payload slots stored in the leaf that nearest-center descent
    /// reaches from `point`, in insertion order.  This inspects no sibling
    /// regions: it is a same-bucket query, not a radius search, and callers
    /// filter the result by exact distance.
    pub fn find_neighbors(&self, point: &Point) -> (r: Vec<usize>)
        requires
            self.wf(),
            self@.root is Some,
            fits(*point, COORD_LIMIT as int),
        ensures
            r@ == self@.nodes[self@.descend(self@.root.unwrap() as int, *point)].points,
            forall|j: int| 0 <= j < r@.len() ==> (#[trigger] r@[j]) < self@.points.len(),
    {
        let leaf = self.descend_to_leaf(point);
        let n = self.nodes[leaf].points.len();
        let mut out: Vec<usize> = Vec::new();
        let mut j: usize = 0;
        while j < n
            invariant
                j <= n,
                leaf < self@.nodes.len(),
                n == self@.nodes[leaf as int].points.len(),
                out@ == self@.nodes[leaf as int].points.take(j as int),
            decreases n - j,
        {
            let s = self.nodes[leaf].points[j];
            out.push(s);
            proof {
                assert(out@ =~= self@.nodes[leaf as int].points.take(j as int + 1));
            }
            j = j + 1;
        }
        proof {
            assert(out@ =~= self@.nodes[leaf as int].points);
            assert(self@.wf_node(leaf as int));
        }
        out
    }

    /// Read access to the payload stored in a point slot.
    pub fn payload(&self, slot: usize) -> (r: &T)
        requires
            slot < self@.points.len(),
        ensures
            *r == self@.points[slot as int].data,
    {
        &self.points[slot].data
    }

    /// Read access to the position stored in a point slot.
    pub fn point_at(&self, slot: usize) -> (r: Point)
        requires
            slot < self@.points.len(),
        ensures
            r == self@.points[slot as int].point,
    {
        self.points[slot].point
    }
}

} // verus!
