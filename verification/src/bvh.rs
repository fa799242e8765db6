//! A tree of boxes over the triangles of a mesh, split at the middle, for picking.
//!
//! Boxes are compared by bit pattern. What takes arithmetic (centroids, middles, the tests of a
//! ray or a sphere against a box or a triangle) comes from the caller.

use vstd::prelude::*;

use crate::bits::{at_least, larger, less, lower, smaller, upper, LARGEST, LOWEST, ZERO};
use crate::mesh::Mesh;

verus! {

/// The most triangles that a leaf holds.
pub const LEAF_TRIS: usize = 8;

/// The corners of a triangle.
pub type Tri = [[u32; 3]; 3];

/// A box, by its lower and its upper corner.
#[derive(Clone, Copy)]
pub struct Bounds {
    pub min: [u32; 3],
    pub max: [u32; 3],
}

/// A node of the tree.
#[derive(Clone, Copy)]
pub struct BvhNode {
    pub bounds: Bounds,
    /// For a leaf the place of its first triangle, else the left child.
    pub left_first: u32,
    /// The number of triangles of a leaf; zero for an inner node.
    pub tri_count: u32,
    /// The right child of an inner node.
    pub right: u32,
}

/// The arithmetic that building a tree needs, on bit patterns.
pub trait BoxMath {
    /// The centroid of a triangle.
    fn centroid(&self, tri: Tri) -> [u32; 3];

    /// The difference of two numbers.
    fn minus(&self, a: u32, b: u32) -> u32;

    /// The number half way between two numbers.
    fn midpoint(&self, a: u32, b: u32) -> u32;
}

/// A tree of boxes over the triangles of a mesh.
pub struct MeshBvh {
    pub nodes: Vec<BvhNode>,
    /// The triangles in the order of the leaves.
    pub tri_indices: Vec<u32>,
    /// The boxes of the triangles, by number.
    pub tri_bounds: Vec<Bounds>,
}

/// The number of triangles of a mesh.
pub open spec fn tri_total(mesh: Mesh) -> nat {
    mesh.indices@.len() / 3
}

/// All corners of all triangles exist.
pub open spec fn corners_exist(mesh: Mesh) -> bool {
    forall|i: int|
        0 <= i < 3 * tri_total(mesh) ==> (#[trigger] mesh.indices@[i]) < mesh.positions@.len()
}

/// The corners of a triangle of a mesh.
pub open spec fn tri_of(mesh: Mesh, t: int) -> Tri {
    [
        mesh.positions@[mesh.indices@[3 * t] as int],
        mesh.positions@[mesh.indices@[3 * t + 1] as int],
        mesh.positions@[mesh.indices@[3 * t + 2] as int],
    ]
}

/// The corners of a triangle of a mesh.
pub fn tri_at(mesh: &Mesh, t: usize) -> (tri: Tri)
    requires
        t < tri_total(*mesh),
        corners_exist(*mesh),
    ensures
        tri == tri_of(*mesh, t as int),
{
    assert(3 * t + 2 < mesh.indices.len());
    assert(mesh.indices@[3 * t] < mesh.positions@.len());
    assert(mesh.indices@[3 * t + 1] < mesh.positions@.len());
    assert(mesh.indices@[3 * t + 2] < mesh.positions@.len());
    let i0: usize = mesh.indices[3 * t] as usize;
    let i1: usize = mesh.indices[3 * t + 1] as usize;
    let i2: usize = mesh.indices[3 * t + 2] as usize;
    [mesh.positions[i0], mesh.positions[i1], mesh.positions[i2]]
}

/// The box of a triangle.
pub open spec fn box_of(tri: Tri) -> Bounds {
    Bounds {
        min: [
            crate::bits::lower_of(crate::bits::lower_of(tri[0][0], tri[1][0]), tri[2][0]),
            crate::bits::lower_of(crate::bits::lower_of(tri[0][1], tri[1][1]), tri[2][1]),
            crate::bits::lower_of(crate::bits::lower_of(tri[0][2], tri[1][2]), tri[2][2]),
        ],
        max: [
            crate::bits::upper_of(crate::bits::upper_of(tri[0][0], tri[1][0]), tri[2][0]),
            crate::bits::upper_of(crate::bits::upper_of(tri[0][1], tri[1][1]), tri[2][1]),
            crate::bits::upper_of(crate::bits::upper_of(tri[0][2], tri[1][2]), tri[2][2]),
        ],
    }
}

fn bound(tri: Tri) -> (b: Bounds)
    ensures
        b == box_of(tri),
{
    Bounds {
        min: [
            lower(lower(tri[0][0], tri[1][0]), tri[2][0]),
            lower(lower(tri[0][1], tri[1][1]), tri[2][1]),
            lower(lower(tri[0][2], tri[1][2]), tri[2][2]),
        ],
        max: [
            upper(upper(tri[0][0], tri[1][0]), tri[2][0]),
            upper(upper(tri[0][1], tri[1][1]), tri[2][1]),
            upper(upper(tri[0][2], tri[1][2]), tri[2][2]),
        ],
    }
}

/// A box with finite sides.
pub open spec fn is_finite_box(b: Bounds) -> bool {
    forall|a: int|
        0 <= a < 3 ==> crate::bits::is_finite(#[trigger] b.min[a]) && crate::bits::is_finite(
            b.max[a],
        )
}

/// The triangles in a part of the order.
pub open spec fn part(order: Seq<u32>, start: int, count: int) -> Set<u32> {
    Set::new(|t: u32| exists|i: int| start <= i < start + count && #[trigger] order[i] == t)
}

/// Side `a` of a box bounds the triangles of a set as closely as possible, from below and from
/// above.
pub open spec fn bounds_side(b: Bounds, boxes: Seq<Bounds>, tris: Set<u32>, a: int) -> bool {
    &&& forall|t: u32| #[trigger]
        tris.contains(t) ==> crate::bits::key_of(b.min[a]) <= crate::bits::key_of(
            boxes[t as int].min[a],
        ) && crate::bits::key_of(boxes[t as int].max[a]) <= crate::bits::key_of(b.max[a])
    &&& exists|t: u32| #[trigger]
        tris.contains(t) && crate::bits::key_of(b.min[a]) == crate::bits::key_of(
            boxes[t as int].min[a],
        )
    &&& exists|t: u32| #[trigger]
        tris.contains(t) && crate::bits::key_of(b.max[a]) == crate::bits::key_of(
            boxes[t as int].max[a],
        )
}

/// A box is the smallest around the triangles of a set, as far as these have finite boxes.
pub open spec fn is_smallest_box(b: Bounds, boxes: Seq<Bounds>, tris: Set<u32>) -> bool {
    (forall|t: u32| #[trigger] tris.contains(t) ==> is_finite_box(boxes[t as int])) ==> {
        &&& bounds_side(b, boxes, tris, 0)
        &&& bounds_side(b, boxes, tris, 1)
        &&& bounds_side(b, boxes, tris, 2)
    }
}

/// The axis along which a box is longest; of equally long ones the first.
pub open spec fn is_longest_axis<M: BoxMath>(math: M, b: Bounds, axis: int) -> bool {
    exists|x: u32, y: u32, z: u32|
        #![trigger differs(math, b, 0, x), differs(math, b, 1, y), differs(math, b, 2, z)]
        {
            &&& differs(math, b, 0, x)
            &&& differs(math, b, 1, y)
            &&& differs(math, b, 2, z)
            &&& axis == if crate::bits::is_at_least(x, y) && crate::bits::is_at_least(x, z) {
                0int
            } else if crate::bits::is_at_least(y, z) {
                1
            } else {
                2
            }
        }
}

/// The length of a box along an axis.
pub open spec fn differs<M: BoxMath>(math: M, b: Bounds, axis: int, d: u32) -> bool {
    call_ensures(M::minus, (&math, b.max[axis], b.min[axis]), d)
}

/// The middle of the centroids of a set along an axis.
pub open spec fn is_middle<M: BoxMath>(
    math: M,
    cents: Seq<[u32; 3]>,
    tris: Set<u32>,
    axis: int,
    mid: u32,
) -> bool {
    exists|low: u32, high: u32| #[trigger]
        is_span(cents, tris, axis, low, high) && call_ensures(
            M::midpoint,
            (&math, low, high),
            mid,
        )
}

/// The lowest and the highest centroid of a set along an axis, as far as all are finite.
pub open spec fn is_span(
    cents: Seq<[u32; 3]>,
    tris: Set<u32>,
    axis: int,
    low: u32,
    high: u32,
) -> bool {
    (forall|t: u32| #[trigger]
        tris.contains(t) ==> crate::bits::is_finite(cents[t as int][axis])) ==> {
        &&& forall|t: u32| #[trigger]
            tris.contains(t) ==> crate::bits::key_of(low) <= crate::bits::key_of(
                cents[t as int][axis],
            ) <= crate::bits::key_of(high)
        &&& exists|t: u32| #[trigger] tris.contains(t) && cents[t as int][axis] == low
        &&& exists|t: u32| #[trigger] tris.contains(t) && cents[t as int][axis] == high
    }
}

/// The centroid of a triangle is below the middle.
pub open spec fn is_below(cents: Seq<[u32; 3]>, t: u32, axis: int, mid: u32) -> bool {
    crate::bits::is_less(cents[t as int][axis], mid)
}

/// How the triangles of a node are divided: at the middle of their centroids along the longest
/// axis, or in two halves when all would be on one side.
pub open spec fn is_split<M: BoxMath>(
    math: M,
    b: Bounds,
    cents: Seq<[u32; 3]>,
    order: Seq<u32>,
    start: int,
    count: int,
    left: int,
) -> bool {
    let all = part(order, start, count);
    exists|axis: int, mid: u32|
        #![trigger is_middle(math, cents, all, axis, mid)]
        {
            &&& 0 <= axis < 3
            &&& is_longest_axis(math, b, axis)
            &&& is_middle(math, cents, all, axis, mid)
            &&& parts_at(cents, all, part(order, start, left), axis, mid, left, count)
        }
}

/// The left part is what is below the middle, or half of the triangles if that is nothing or
/// everything.
pub open spec fn parts_at(
    cents: Seq<[u32; 3]>,
    all: Set<u32>,
    left_part: Set<u32>,
    axis: int,
    mid: u32,
    left: int,
    count: int,
) -> bool {
    if (forall|t: u32| #[trigger] all.contains(t) ==> is_below(cents, t, axis, mid)) || (forall|
        t: u32,
    | #[trigger]
        all.contains(t) ==> !is_below(cents, t, axis, mid)) {
        left == count / 2
    } else {
        forall|t: u32| #[trigger]
            all.contains(t) ==> (left_part.contains(t) <==> is_below(cents, t, axis, mid))
    }
}

/// The tree below a node, over a part of the order: small parts are leaves, larger ones are
/// split.
pub open spec fn is_tree<M: BoxMath>(
    math: M,
    nodes: Seq<BvhNode>,
    order: Seq<u32>,
    cents: Seq<[u32; 3]>,
    boxes: Seq<Bounds>,
    ni: int,
    start: int,
    count: int,
) -> bool
    decreases count,
{
    &&& 0 <= ni < nodes.len()
    &&& 0 < count
    &&& 0 <= start
    &&& start + count <= order.len()
    &&& is_smallest_box(nodes[ni].bounds, boxes, part(order, start, count))
    &&& if count <= LEAF_TRIS {
        &&& nodes[ni].tri_count == count
        &&& nodes[ni].left_first == start
        &&& nodes[ni].right == 0
    } else {
        &&& nodes[ni].tri_count == 0
        &&& ni < nodes[ni].left_first
        &&& ni < nodes[ni].right
        &&& exists|left: int|
            {
                &&& 0 < left < count
                &&& #[trigger] is_split(math, nodes[ni].bounds, cents, order, start, count, left)
                &&& is_tree(
                    math,
                    nodes,
                    order,
                    cents,
                    boxes,
                    nodes[ni].left_first as int,
                    start,
                    left,
                )
                &&& is_tree(
                    math,
                    nodes,
                    order,
                    cents,
                    boxes,
                    nodes[ni].right as int,
                    start + left,
                    count - left,
                )
            }
    }
}

/// A part of a list keeps its triangles.
proof fn lemma_part_same(a: Seq<u32>, b: Seq<u32>, start: int, count: int)
    requires
        forall|i: int| start <= i < start + count ==> #[trigger] a[i] == b[i],
    ensures
        part(a, start, count) == part(b, start, count),
{
    assert forall|t: u32| part(a, start, count).contains(t) implies part(b, start, count).contains(
        t,
    ) by {
        let i = choose|i: int| start <= i < start + count && #[trigger] a[i] == t;
        assert(b[i] == t);
    }
    assert forall|t: u32| part(b, start, count).contains(t) implies part(a, start, count).contains(
        t,
    ) by {
        let i = choose|i: int| start <= i < start + count && #[trigger] b[i] == t;
        assert(a[i] == b[i]);
    }
    assert(part(a, start, count) =~= part(b, start, count));
}

/// A part consists of its two halves.
proof fn lemma_part_halves(order: Seq<u32>, start: int, left: int, count: int)
    requires
        0 <= left <= count,
    ensures
        part(order, start, count) == part(order, start, left).union(
            part(order, start + left, count - left),
        ),
{
    let all = part(order, start, count);
    let a = part(order, start, left);
    let b = part(order, start + left, count - left);
    assert forall|t: u32| all.contains(t) implies a.union(b).contains(t) by {
        let i = choose|i: int| start <= i < start + count && #[trigger] order[i] == t;
        if i < start + left {
            assert(a.contains(t));
        } else {
            assert(b.contains(t));
        }
    }
    assert forall|t: u32| a.union(b).contains(t) implies all.contains(t) by {
        if a.contains(t) {
            let i = choose|i: int| start <= i < start + left && #[trigger] order[i] == t;
            assert(order[i] == t);
        } else {
            let i = choose|i: int|
                start + left <= i < start + left + (count - left) && #[trigger] order[i] == t;
            assert(order[i] == t);
        }
    }
    assert(all =~= a.union(b));
}

/// A tree stays a tree when other nodes and other parts change.
proof fn lemma_tree_frame<M: BoxMath>(
    math: M,
    n1: Seq<BvhNode>,
    o1: Seq<u32>,
    n2: Seq<BvhNode>,
    o2: Seq<u32>,
    cents: Seq<[u32; 3]>,
    boxes: Seq<Bounds>,
    ni: int,
    start: int,
    count: int,
)
    requires
        is_tree(math, n1, o1, cents, boxes, ni, start, count),
        n1.len() <= n2.len(),
        o1.len() <= o2.len(),
        forall|i: int| ni <= i < n1.len() ==> #[trigger] n2[i] == n1[i],
        forall|i: int| start <= i < start + count ==> #[trigger] o2[i] == o1[i],
    ensures
        is_tree(math, n2, o2, cents, boxes, ni, start, count),
    decreases count,
{
    lemma_part_same(o2, o1, start, count);
    assert(n2[ni] == n1[ni]);
    if count > LEAF_TRIS {
        let node = n1[ni];
        let left = choose|left: int|
            {
                &&& 0 < left < count
                &&& #[trigger] is_split(math, node.bounds, cents, o1, start, count, left)
                &&& is_tree(
                    math,
                    n1,
                    o1,
                    cents,
                    boxes,
                    node.left_first as int,
                    start,
                    left,
                )
                &&& is_tree(
                    math,
                    n1,
                    o1,
                    cents,
                    boxes,
                    node.right as int,
                    start + left,
                    count - left,
                )
            };
        lemma_part_same(o2, o1, start, left);
        assert(is_split(math, node.bounds, cents, o2, start, count, left));
        lemma_tree_frame(
            math,
            n1,
            o1,
            n2,
            o2,
            cents,
            boxes,
            node.left_first as int,
            start,
            left,
        );
        lemma_tree_frame(
            math,
            n1,
            o1,
            n2,
            o2,
            cents,
            boxes,
            node.right as int,
            start + left,
            count - left,
        );
    }
}

/// The box around the first triangles of a part, so far.
spec fn bounds_so_far(b: Bounds, boxes: Seq<Bounds>, tris: Set<u32>) -> bool {
    (forall|t: u32| #[trigger] tris.contains(t) ==> is_finite_box(boxes[t as int])) ==> {
        &&& side_so_far(b, boxes, tris, 0)
        &&& side_so_far(b, boxes, tris, 1)
        &&& side_so_far(b, boxes, tris, 2)
    }
}

spec fn side_so_far(b: Bounds, boxes: Seq<Bounds>, tris: Set<u32>, a: int) -> bool {
    if tris =~= Set::empty() {
        b.min[a] == LARGEST && b.max[a] == LOWEST
    } else {
        bounds_side(b, boxes, tris, a) && crate::bits::is_finite(b.min[a])
            && crate::bits::is_finite(b.max[a])
    }
}

/// A box grown around one more box.
spec fn grown(b: Bounds, c: Bounds) -> Bounds {
    Bounds {
        min: [
            crate::bits::lower_of(b.min[0], c.min[0]),
            crate::bits::lower_of(b.min[1], c.min[1]),
            crate::bits::lower_of(b.min[2], c.min[2]),
        ],
        max: [
            crate::bits::upper_of(b.max[0], c.max[0]),
            crate::bits::upper_of(b.max[1], c.max[1]),
            crate::bits::upper_of(b.max[2], c.max[2]),
        ],
    }
}

proof fn lemma_side_grows(b: Bounds, boxes: Seq<Bounds>, tris: Set<u32>, t: u32, a: int)
    requires
        0 <= a < 3,
        is_finite_box(boxes[t as int]),
        side_so_far(b, boxes, tris, a),
    ensures
        side_so_far(grown(b, boxes[t as int]), boxes, tris.insert(t), a),
{
    let c = boxes[t as int];
    let g = grown(b, c);
    let more = tris.insert(t);
    assert(more.contains(t));
    assert(crate::bits::is_finite(c.min[a]) && crate::bits::is_finite(c.max[a]));
    if tris =~= Set::empty() {
        assert(bounds_side(g, boxes, more, a));
    } else {
        let t0 = choose|x: u32| #[trigger]
            tris.contains(x) && crate::bits::key_of(b.min[a]) == crate::bits::key_of(
                boxes[x as int].min[a],
            );
        let t1 = choose|x: u32| #[trigger]
            tris.contains(x) && crate::bits::key_of(b.max[a]) == crate::bits::key_of(
                boxes[x as int].max[a],
            );
        assert(more.contains(t0));
        assert(more.contains(t1));
        assert forall|x: u32| #[trigger] more.contains(x) implies crate::bits::key_of(g.min[a])
            <= crate::bits::key_of(boxes[x as int].min[a]) && crate::bits::key_of(
            boxes[x as int].max[a],
        ) <= crate::bits::key_of(g.max[a]) by {
            if x != t {
                assert(tris.contains(x));
            }
        }
        assert(bounds_side(g, boxes, more, a));
    }
}

proof fn lemma_bounds_grow(b: Bounds, boxes: Seq<Bounds>, tris: Set<u32>, t: u32)
    requires
        bounds_so_far(b, boxes, tris),
    ensures
        bounds_so_far(grown(b, boxes[t as int]), boxes, tris.insert(t)),
{
    let more = tris.insert(t);
    if forall|x: u32| #[trigger] more.contains(x) ==> is_finite_box(boxes[x as int]) {
        assert(more.contains(t));
        assert forall|x: u32| #[trigger] tris.contains(x) implies is_finite_box(
            boxes[x as int],
        ) by {
            assert(more.contains(x));
        }
        lemma_side_grows(b, boxes, tris, t, 0);
        lemma_side_grows(b, boxes, tris, t, 1);
        lemma_side_grows(b, boxes, tris, t, 2);
    }
}

/// A part with one more triangle.
proof fn lemma_part_grows(order: Seq<u32>, start: int, count: int)
    requires
        count >= 0,
    ensures
        part(order, start, count + 1) == part(order, start, count).insert(order[start + count]),
{
    let a = part(order, start, count);
    let b = part(order, start, count + 1);
    assert forall|t: u32| b.contains(t) implies a.insert(order[start + count]).contains(t) by {
        let i = choose|i: int| start <= i < start + (count + 1) && #[trigger] order[i] == t;
        if i < start + count {
            assert(a.contains(t));
        }
    }
    assert forall|t: u32| a.insert(order[start + count]).contains(t) implies b.contains(t) by {
        if a.contains(t) {
            let i = choose|i: int| start <= i < start + count && #[trigger] order[i] == t;
            assert(order[i] == t);
        } else {
            assert(order[start + count] == t);
        }
    }
    assert(b =~= a.insert(order[start + count]));
}

/// The smallest box around a part.
fn bounds_of_range(order: &Vec<u32>, boxes: &Vec<Bounds>, start: usize, count: usize) -> (b: Bounds)
    requires
        start + count <= order@.len(),
        count > 0,
        forall|i: int| 0 <= i < order@.len() ==> (#[trigger] order@[i]) < boxes@.len(),
    ensures
        is_smallest_box(b, boxes@, part(order@, start as int, count as int)),
{
    let mut b = Bounds { min: [LARGEST, LARGEST, LARGEST], max: [LOWEST, LOWEST, LOWEST] };
    let mut i: usize = 0;
    proof {
        assert(part(order@, start as int, 0) =~= Set::empty());
    }
    while i < count
        invariant
            i <= count,
            start + count <= order@.len(),
            forall|i: int| 0 <= i < order@.len() ==> (#[trigger] order@[i]) < boxes@.len(),
            bounds_so_far(b, boxes@, part(order@, start as int, i as int)),
        decreases count - i,
    {
        assert(start + i < order.len());
        assert(order@[start + i] < boxes@.len());
        let t: usize = order[start + i] as usize;
        let c = boxes[t];
        proof {
            lemma_bounds_grow(
                b,
                boxes@,
                part(order@, start as int, i as int),
                order@[start + i],
            );
            lemma_part_grows(order@, start as int, i as int);
        }
        b = Bounds {
            min: [lower(b.min[0], c.min[0]), lower(b.min[1], c.min[1]), lower(b.min[2], c.min[2])],
            max: [upper(b.max[0], c.max[0]), upper(b.max[1], c.max[1]), upper(b.max[2], c.max[2])],
        };
        i += 1;
    }
    proof {
        let all = part(order@, start as int, count as int);
        assert(order@[start as int] == order@[start as int]);
        assert(all.contains(order@[start as int]));
    }
    b
}

/// The axis along which a box is longest.
fn longest_axis<M: BoxMath>(math: &M, b: Bounds) -> (axis: usize)
    ensures
        axis < 3,
        is_longest_axis(*math, b, axis as int),
{
    let x: u32 = math.minus(b.max[0], b.min[0]);
    let y: u32 = math.minus(b.max[1], b.min[1]);
    let z: u32 = math.minus(b.max[2], b.min[2]);
    assert(differs(*math, b, 0, x) && differs(*math, b, 1, y) && differs(*math, b, 2, z));
    if at_least(x, y) && at_least(x, z) {
        0
    } else if at_least(y, z) {
        1
    } else {
        2
    }
}

spec fn span_so_far(
    cents: Seq<[u32; 3]>,
    tris: Set<u32>,
    axis: int,
    low: u32,
    high: u32,
) -> bool {
    if tris =~= Set::empty() {
        low == LARGEST && high == LOWEST
    } else {
        is_span(cents, tris, axis, low, high)
    }
}

proof fn lemma_span_grows(
    cents: Seq<[u32; 3]>,
    tris: Set<u32>,
    axis: int,
    low: u32,
    high: u32,
    t: u32,
)
    requires
        span_so_far(cents, tris, axis, low, high),
    ensures
        span_so_far(
            cents,
            tris.insert(t),
            axis,
            crate::bits::smaller_of(low, cents[t as int][axis]),
            crate::bits::larger_of(high, cents[t as int][axis]),
        ),
{
    let more = tris.insert(t);
    let c = cents[t as int][axis];
    let low2 = crate::bits::smaller_of(low, c);
    let high2 = crate::bits::larger_of(high, c);
    assert(more.contains(t));
    if forall|x: u32| #[trigger]
        more.contains(x) ==> crate::bits::is_finite(cents[x as int][axis]) {
        assert(crate::bits::is_finite(c));
        assert forall|x: u32| #[trigger] tris.contains(x) implies crate::bits::is_finite(
            cents[x as int][axis],
        ) by {
            assert(more.contains(x));
        }
        if tris =~= Set::empty() {
            assert forall|x: u32| #[trigger] more.contains(x) implies x == t by {
                assert(!tris.contains(x));
            }
            assert(low2 == c);
            assert(high2 == c);
        } else {
            let t0 = choose|x: u32| #[trigger] tris.contains(x) && cents[x as int][axis] == low;
            let t1 = choose|x: u32| #[trigger] tris.contains(x) && cents[x as int][axis] == high;
            assert(more.contains(t0) && more.contains(t1));
            assert forall|x: u32| #[trigger] more.contains(x) implies crate::bits::key_of(low2)
                <= crate::bits::key_of(cents[x as int][axis]) <= crate::bits::key_of(high2) by {
                if x != t {
                    assert(tris.contains(x));
                }
            }
        }
        assert(is_span(cents, more, axis, low2, high2));
    }
}

/// The middle of the centroids of a part along an axis.
fn middle<M: BoxMath>(
    math: &M,
    order: &Vec<u32>,
    cents: &Vec<[u32; 3]>,
    start: usize,
    count: usize,
    axis: usize,
) -> (mid: u32)
    requires
        start + count <= order@.len(),
        count > 0,
        axis < 3,
        forall|i: int| 0 <= i < order@.len() ==> (#[trigger] order@[i]) < cents@.len(),
    ensures
        is_middle(
            *math,
            cents@,
            part(order@, start as int, count as int),
            axis as int,
            mid,
        ),
{
    let mut low: u32 = LARGEST;
    let mut high: u32 = LOWEST;
    let mut i: usize = 0;
    proof {
        assert(part(order@, start as int, 0) =~= Set::empty());
    }
    while i < count
        invariant
            i <= count,
            axis < 3,
            start + count <= order@.len(),
            forall|i: int| 0 <= i < order@.len() ==> (#[trigger] order@[i]) < cents@.len(),
            span_so_far(
                cents@,
                part(order@, start as int, i as int),
                axis as int,
                low,
                high,
            ),
        decreases count - i,
    {
        assert(start + i < order.len());
        assert(order@[start + i] < cents@.len());
        let c: u32 = cents[order[start + i] as usize][axis];
        proof {
            lemma_span_grows(
                cents@,
                part(order@, start as int, i as int),
                axis as int,
                low,
                high,
                order@[start + i],
            );
            lemma_part_grows(order@, start as int, i as int);
        }
        low = smaller(low, c);
        high = larger(high, c);
        i += 1;
    }
    proof {
        let all = part(order@, start as int, count as int);
        assert(order@[start as int] == order@[start as int]);
        assert(all.contains(order@[start as int]));
        assert(is_span(cents@, all, axis as int, low, high));
    }
    math.midpoint(low, high)
}

/// The list `b` is the list `a` with the items of a part in another order.
pub open spec fn reordered(a: Seq<u32>, b: Seq<u32>, start: int, count: int) -> bool {
    &&& a.len() == b.len()
    &&& forall|i: int|
        0 <= i < a.len() && !(start <= i < start + count) ==> #[trigger] b[i] == a[i]
    &&& part(a, start, count) == part(b, start, count)
    &&& a.no_duplicates() ==> b.no_duplicates()
}

proof fn lemma_swap_reorders(a: Seq<u32>, start: int, count: int, i: int, j: int)
    requires
        0 <= start,
        start <= i < start + count,
        start <= j < start + count,
        start + count <= a.len(),
    ensures
        reordered(a, a.update(i, a[j]).update(j, a[i]), start, count),
{
    let b = a.update(i, a[j]).update(j, a[i]);
    assert forall|t: u32| part(a, start, count).contains(t) implies part(b, start, count).contains(
        t,
    ) by {
        let k = choose|k: int| start <= k < start + count && #[trigger] a[k] == t;
        if k == i {
            assert(b[j] == t);
        } else if k == j {
            assert(b[i] == t);
        } else {
            assert(b[k] == t);
        }
    }
    assert forall|t: u32| part(b, start, count).contains(t) implies part(a, start, count).contains(
        t,
    ) by {
        let k = choose|k: int| start <= k < start + count && #[trigger] b[k] == t;
        if k == i {
            assert(a[j] == t);
        } else if k == j {
            assert(a[i] == t);
        } else {
            assert(a[k] == t);
        }
    }
    assert(part(a, start, count) =~= part(b, start, count));
    if a.no_duplicates() {
        assert forall|x: int, y: int|
            0 <= x < b.len() && 0 <= y < b.len() && x != y implies b[x] != b[y] by {
            let x0 = if x == i {
                j
            } else if x == j {
                i
            } else {
                x
            };
            let y0 = if y == i {
                j
            } else if y == j {
                i
            } else {
                y
            };
            assert(b[x] == a[x0]);
            assert(b[y] == a[y0]);
        }
    }
}

proof fn lemma_reordered_trans(a: Seq<u32>, b: Seq<u32>, c: Seq<u32>, start: int, count: int)
    requires
        reordered(a, b, start, count),
        reordered(b, c, start, count),
    ensures
        reordered(a, c, start, count),
{
    assert forall|i: int| 0 <= i < a.len() && !(start <= i < start + count) implies #[trigger] c[i]
        == a[i] by {
        assert(b[i] == a[i]);
    }
}

/// Reordering one half of a part reorders the part.
proof fn lemma_reordered_widen(
    a: Seq<u32>,
    b: Seq<u32>,
    start: int,
    count: int,
    outer_start: int,
    outer_count: int,
)
    requires
        reordered(a, b, start, count),
        outer_start <= start,
        0 <= count,
        start + count <= outer_start + outer_count,
        0 <= outer_start,
        outer_start + outer_count <= a.len(),
    ensures
        reordered(a, b, outer_start, outer_count),
{
    let before = start - outer_start;
    let after = outer_start + outer_count - (start + count);
    lemma_part_halves(a, outer_start, before, outer_count);
    lemma_part_halves(a, start, count, outer_count - before);
    lemma_part_halves(b, outer_start, before, outer_count);
    lemma_part_halves(b, start, count, outer_count - before);
    lemma_part_same(a, b, outer_start, before);
    lemma_part_same(a, b, start + count, after);
}

/// Brings the triangles below the middle to the front of a part; says where the others begin.
fn partition(
    order: &mut Vec<u32>,
    cents: &Vec<[u32; 3]>,
    start: usize,
    count: usize,
    axis: usize,
    mid: u32,
) -> (split: usize)
    requires
        start + count <= old(order)@.len(),
        axis < 3,
        forall|i: int| 0 <= i < old(order)@.len() ==> (#[trigger] old(order)@[i]) < cents@.len(),
    ensures
        reordered(old(order)@, final(order)@, start as int, count as int),
        start <= split <= start + count,
        forall|i: int|
            start <= i < split ==> is_below(cents@, #[trigger] final(order)@[i], axis as int, mid),
        forall|i: int|
            split <= i < start + count ==> !is_below(
                cents@,
                #[trigger] final(order)@[i],
                axis as int,
                mid,
            ),
        forall|i: int|
            0 <= i < final(order)@.len() ==> (#[trigger] final(order)@[i]) < cents@.len(),
{
    assert(start + count <= order.len());
    let mut split: usize = start;
    let mut i: usize = start;
    while i < start + count
        invariant
            start <= split <= i <= start + count,
            start + count <= order.len(),
            axis < 3,
            forall|i: int| 0 <= i < order@.len() ==> (#[trigger] order@[i]) < cents@.len(),
            reordered(old(order)@, order@, start as int, count as int),
            forall|k: int|
                start <= k < split ==> is_below(cents@, #[trigger] order@[k], axis as int, mid),
            forall|k: int|
                split <= k < i ==> !is_below(cents@, #[trigger] order@[k], axis as int, mid),
        decreases start + count - i,
    {
        assert(order@[i as int] < cents@.len());
        if less(cents[order[i] as usize][axis], mid) {
            let a: u32 = order[i];
            let b: u32 = order[split];
            proof {
                lemma_swap_reorders(
                    order@,
                    start as int,
                    count as int,
                    i as int,
                    split as int,
                );
                lemma_reordered_trans(
                    old(order)@,
                    order@,
                    order@.update(i as int, b).update(split as int, a),
                    start as int,
                    count as int,
                );
            }
            order.set(i, b);
            order.set(split, a);
            split += 1;
        }
        i += 1;
    }
    split
}

/// Reordering a part and then its halves reorders the part, and the halves keep their triangles.
proof fn lemma_built_order(
    order0: Seq<u32>,
    parted: Seq<u32>,
    order1: Seq<u32>,
    order2: Seq<u32>,
    s: int,
    n: int,
    l: int,
)
    requires
        0 <= s,
        0 < l < n,
        s + n <= order0.len(),
        reordered(order0, parted, s, n),
        reordered(parted, order1, s, l),
        reordered(order1, order2, s + l, n - l),
    ensures
        reordered(order0, order2, s, n),
        part(order2, s, n) == part(order0, s, n),
        part(order2, s, n) == part(parted, s, n),
        part(order2, s, l) == part(parted, s, l),
{
    lemma_reordered_widen(parted, order1, s, l, s, n);
    lemma_reordered_widen(order1, order2, s + l, n - l, s, n);
    lemma_reordered_trans(parted, order1, order2, s, n);
    lemma_reordered_trans(order0, parted, order2, s, n);
    lemma_part_same(order2, order1, s, l);
}

/// Two trees over the halves of a part make a tree over the part.
#[verifier::spinoff_prover]
proof fn lemma_built<M: BoxMath>(
    math: M,
    bounds: Bounds,
    cents: Seq<[u32; 3]>,
    boxes: Seq<Bounds>,
    order0: Seq<u32>,
    parted: Seq<u32>,
    order1: Seq<u32>,
    order2: Seq<u32>,
    nodes1: Seq<BvhNode>,
    nodes2: Seq<BvhNode>,
    at: int,
    s: int,
    n: int,
    l: int,
    left: u32,
    right: u32,
    axis: int,
    mid: u32,
)
    requires
        0 <= s,
        0 < l < n,
        n > LEAF_TRIS,
        s + n <= order0.len(),
        reordered(order0, parted, s, n),
        reordered(parted, order1, s, l),
        reordered(order1, order2, s + l, n - l),
        is_smallest_box(bounds, boxes, part(order0, s, n)),
        0 <= axis < 3,
        is_longest_axis(math, bounds, axis),
        is_middle(math, cents, part(order0, s, n), axis, mid),
        parts_at(cents, part(parted, s, n), part(parted, s, l), axis, mid, l, n),
        is_tree(math, nodes1, order1, cents, boxes, left as int, s, l),
        is_tree(math, nodes2, order2, cents, boxes, right as int, s + l, n - l),
        0 <= at < left,
        at < right,
        nodes1.len() <= nodes2.len(),
        forall|i: int| 0 <= i < nodes1.len() ==> #[trigger] nodes2[i] == nodes1[i],
    ensures
        reordered(order0, order2, s, n),
        is_tree(
            math,
            nodes2.update(at, BvhNode { bounds, left_first: left, tri_count: 0, right }),
            order2,
            cents,
            boxes,
            at,
            s,
            n,
        ),
{
    let nodes3 = nodes2.update(at, BvhNode { bounds, left_first: left, tri_count: 0, right });
    lemma_built_order(order0, parted, order1, order2, s, n, l);
    assert(is_split(math, bounds, cents, order2, s, n, l)) by {
        assert(is_middle(math, cents, part(order2, s, n), axis, mid));
    }
    lemma_tree_frame(math, nodes1, order1, nodes3, order2, cents, boxes, left as int, s, l);
    lemma_tree_frame(
        math,
        nodes2,
        order2,
        nodes3,
        order2,
        cents,
        boxes,
        right as int,
        s + l,
        n - l,
    );
}

/// Builds the tree over a part and says which node is its root.
fn build_recursive<M: BoxMath>(
    math: &M,
    nodes: &mut Vec<BvhNode>,
    order: &mut Vec<u32>,
    cents: &Vec<[u32; 3]>,
    boxes: &Vec<Bounds>,
    start: usize,
    count: usize,
) -> (root: u32)
    requires
        count > 0,
        start + count <= old(order)@.len(),
        start + count <= u32::MAX,
        cents@.len() == boxes@.len(),
        forall|i: int| 0 <= i < old(order)@.len() ==> (#[trigger] old(order)@[i]) < cents@.len(),
        old(nodes)@.len() + 2 * count <= u32::MAX,
    ensures
        root == old(nodes)@.len(),
        reordered(old(order)@, final(order)@, start as int, count as int),
        forall|i: int|
            0 <= i < final(order)@.len() ==> (#[trigger] final(order)@[i]) < cents@.len(),
        old(nodes)@.len() < final(nodes)@.len() < old(nodes)@.len() + 2 * count,
        forall|i: int|
            0 <= i < old(nodes)@.len() ==> #[trigger] final(nodes)@[i] == old(nodes)@[i],
        is_tree(
            *math,
            final(nodes)@,
            final(order)@,
            cents@,
            boxes@,
            root as int,
            start as int,
            count as int,
        ),
    decreases count,
{
    let at: usize = nodes.len();
    let bounds = bounds_of_range(order, boxes, start, count);
    if count <= LEAF_TRIS {
        nodes.push(
            BvhNode { bounds, left_first: start as u32, tri_count: count as u32, right: 0 },
        );
        return at as u32;
    }
    nodes.push(BvhNode { bounds, left_first: 0, tri_count: 0, right: 0 });
    let axis: usize = longest_axis(math, bounds);
    let mid: u32 = middle(math, order, cents, start, count, axis);
    let mut split: usize = partition(order, cents, start, count, axis, mid);
    let ghost parted = order@;
    let ghost all = part(old(order)@, start as int, count as int);
    let ghost found = split;
    if split == start || split == start + count {
        split = start + count / 2;
    }
    let left_count: usize = split - start;
    proof {
        lemma_parts(cents@, parted, start as int, count as int, found as int, axis as int, mid);
    }
    let left: u32 = build_recursive(math, nodes, order, cents, boxes, start, left_count);
    let ghost nodes1 = nodes@;
    let ghost order1 = order@;
    let right: u32 = build_recursive(
        math,
        nodes,
        order,
        cents,
        boxes,
        split,
        count - left_count,
    );
    let ghost nodes2 = nodes@;
    nodes.set(at, BvhNode { bounds, left_first: left, tri_count: 0, right });
    proof {
        lemma_built(
            *math,
            bounds,
            cents@,
            boxes@,
            old(order)@,
            parted,
            order1,
            order@,
            nodes1,
            nodes2,
            at as int,
            start as int,
            count as int,
            left_count as int,
            left,
            right,
            axis as int,
            mid,
        );
    }
    at as u32
}

/// After the triangles below the middle were brought to the front, the parts are what they should
/// be.
proof fn lemma_parts(
    cents: Seq<[u32; 3]>,
    order: Seq<u32>,
    start: int,
    count: int,
    split: int,
    axis: int,
    mid: u32,
)
    requires
        count >= 2,
        start <= split <= start + count,
        forall|i: int| start <= i < split ==> is_below(cents, #[trigger] order[i], axis, mid),
        forall|i: int|
            split <= i < start + count ==> !is_below(cents, #[trigger] order[i], axis, mid),
    ensures
        ({
            let left = if split == start || split == start + count {
                count / 2
            } else {
                split - start
            };
            parts_at(
                cents,
                part(order, start, count),
                part(order, start, left),
                axis,
                mid,
                left,
                count,
            )
        }),
{
    let all = part(order, start, count);
    if split == start {
        assert forall|t: u32| #[trigger] all.contains(t) implies !is_below(
            cents,
            t,
            axis,
            mid,
        ) by {
            let i = choose|i: int| start <= i < start + count && #[trigger] order[i] == t;
        }
    } else if split == start + count {
        assert forall|t: u32| #[trigger] all.contains(t) implies is_below(cents, t, axis, mid) by {
            let i = choose|i: int| start <= i < start + count && #[trigger] order[i] == t;
        }
    } else {
        let left = split - start;
        let left_part = part(order, start, left);
        assert(all.contains(order[start]));
        assert(all.contains(order[split]));
        assert forall|t: u32| #[trigger] all.contains(t) implies (left_part.contains(t)
            <==> is_below(cents, t, axis, mid)) by {
            let i = choose|i: int| start <= i < start + count && #[trigger] order[i] == t;
            if i < split {
                assert(order[i] == t);
                assert(left_part.contains(t));
            }
            if left_part.contains(t) {
                let k = choose|k: int| start <= k < start + left && #[trigger] order[k] == t;
                assert(is_below(cents, order[k], axis, mid));
            }
        }
    }
}

/// Centroids that the arithmetic gives for the triangles of a mesh.
pub open spec fn are_centroids<M: BoxMath>(math: M, mesh: Mesh, cents: Seq<[u32; 3]>) -> bool {
    &&& cents.len() == tri_total(mesh)
    &&& forall|t: int|
        0 <= t < cents.len() ==> call_ensures(
            M::centroid,
            (&math, tri_of(mesh, t)),
            #[trigger] cents[t],
        )
}

/// The boxes of the triangles of a mesh.
pub open spec fn tri_boxes(mesh: Mesh) -> Seq<Bounds> {
    Seq::new(tri_total(mesh), |t: int| box_of(tri_of(mesh, t)))
}

impl MeshBvh {
    /// The tree holds every triangle once.
    pub open spec fn holds_all(self, n: nat) -> bool {
        &&& n <= u32::MAX
        &&& self.tri_indices@.len() == n
        &&& self.tri_indices@.no_duplicates()
        &&& forall|i: int| 0 <= i < n ==> (#[trigger] self.tri_indices@[i]) < n
    }

    /// The tree of a mesh.
    pub open spec fn is_tree_of<M: BoxMath>(self, math: M, mesh: Mesh) -> bool {
        &&& self.holds_all(tri_total(mesh))
        &&& self.tri_bounds@ == tri_boxes(mesh)
        &&& tri_total(mesh) > 0 ==> exists|cents: Seq<[u32; 3]>| #[trigger]
            are_centroids(math, mesh, cents) && is_tree(
                math,
                self.nodes@,
                self.tri_indices@,
                cents,
                tri_boxes(mesh),
                0,
                0,
                tri_total(mesh) as int,
            )
    }

    /// Builds the tree over the triangles of a mesh.
    pub fn build<M: BoxMath>(math: &M, mesh: &Mesh) -> (bvh: MeshBvh)
        requires
            corners_exist(*mesh),
            tri_total(*mesh) <= 0x7fff_ffff,
        ensures
            bvh.is_tree_of(*math, *mesh),
    {
        let n: usize = mesh.indices.len() / 3;
        let mut order: Vec<u32> = Vec::new();
        let mut cents: Vec<[u32; 3]> = Vec::new();
        let mut boxes: Vec<Bounds> = Vec::new();
        let mut t: usize = 0;
        while t < n
            invariant
                t <= n,
                n == tri_total(*mesh),
                n <= 0x7fff_ffff,
                corners_exist(*mesh),
                order@.len() == t,
                cents@.len() == t,
                boxes@.len() == t,
                forall|i: int| 0 <= i < t ==> #[trigger] order@[i] == i,
                forall|i: int|
                    0 <= i < t ==> call_ensures(
                        M::centroid,
                        (math, tri_of(*mesh, i)),
                        #[trigger] cents@[i],
                    ),
                forall|i: int| 0 <= i < t ==> #[trigger] boxes@[i] == box_of(tri_of(*mesh, i)),
            decreases n - t,
        {
            let tri: Tri = tri_at(mesh, t);
            order.push(t as u32);
            cents.push(math.centroid(tri));
            boxes.push(bound(tri));
            t += 1;
        }
        let mut nodes: Vec<BvhNode> = Vec::new();
        if n == 0 {
            nodes.push(
                BvhNode {
                    bounds: Bounds { min: [ZERO, ZERO, ZERO], max: [ZERO, ZERO, ZERO] },
                    left_first: 0,
                    tri_count: 0,
                    right: 0,
                },
            );
            assert(boxes@ =~= tri_boxes(*mesh));
            return MeshBvh { nodes, tri_indices: order, tri_bounds: boxes };
        }
        assert(boxes@ =~= tri_boxes(*mesh));
        assert(are_centroids(*math, *mesh, cents@));
        let root: u32 = build_recursive(math, &mut nodes, &mut order, &cents, &boxes, 0, n);
        MeshBvh { nodes, tri_indices: order, tri_bounds: boxes }
    }
}

/// The number of triangles below a node.
pub open spec fn width(nodes: Seq<BvhNode>, ni: int) -> nat
    decreases nodes.len() - ni,
{
    if !(0 <= ni < nodes.len()) {
        0
    } else if nodes[ni].tri_count > 0 {
        nodes[ni].tri_count as nat
    } else if ni < nodes[ni].left_first < nodes.len() && ni < nodes[ni].right < nodes.len() {
        width(nodes, nodes[ni].left_first as int) + width(nodes, nodes[ni].right as int)
    } else {
        0
    }
}

/// The nodes below a node are a tree whose leaves hold one triangle after the other, from place
/// `start` on.
pub open spec fn is_shape(nodes: Seq<BvhNode>, ni: int, start: int) -> bool
    decreases nodes.len() - ni,
{
    &&& 0 <= ni < nodes.len()
    &&& if nodes[ni].tri_count > 0 {
        nodes[ni].left_first == start
    } else {
        &&& ni < nodes[ni].left_first < nodes.len()
        &&& ni < nodes[ni].right < nodes.len()
        &&& is_shape(nodes, nodes[ni].left_first as int, start)
        &&& is_shape(
            nodes,
            nodes[ni].right as int,
            start + width(nodes, nodes[ni].left_first as int),
        )
    }
}

/// A box lies within another one.
pub open spec fn within(small: Bounds, large: Bounds) -> bool {
    forall|a: int|
        0 <= a < 3 ==> crate::bits::key_of(#[trigger] large.min[a]) <= crate::bits::key_of(
            small.min[a],
        ) && crate::bits::key_of(small.max[a]) <= crate::bits::key_of(large.max[a])
}

/// A box holds a triangle.
pub open spec fn box_holds(b: Bounds, tri: Tri) -> bool {
    within(box_of(tri), b)
}

/// Every box below a node holds the boxes of the triangles below it.
pub open spec fn encloses(
    nodes: Seq<BvhNode>,
    order: Seq<u32>,
    boxes: Seq<Bounds>,
    ni: int,
    start: int,
) -> bool
    decreases nodes.len() - ni,
{
    &&& 0 <= ni < nodes.len()
    &&& forall|i: int|
        start <= i < start + width(nodes, ni) ==> within(
            boxes[#[trigger] order[i] as int],
            nodes[ni].bounds,
        )
    &&& nodes[ni].tri_count > 0 || {
        &&& ni < nodes[ni].left_first < nodes.len()
        &&& ni < nodes[ni].right < nodes.len()
        &&& encloses(nodes, order, boxes, nodes[ni].left_first as int, start)
        &&& encloses(
            nodes,
            order,
            boxes,
            nodes[ni].right as int,
            start + width(nodes, nodes[ni].left_first as int),
        )
    }
}

impl MeshBvh {
    /// The invariant: the tree holds each of the `n` triangles once, leaf after leaf, and a box for
    /// each.
    pub open spec fn wf(self, n: nat) -> bool {
        &&& self.holds_all(n)
        &&& self.tri_bounds@.len() == n
        &&& n > 0 ==> is_shape(self.nodes@, 0, 0) && width(self.nodes@, 0) == n
    }

    /// Every box of the tree holds the boxes of the triangles below it.
    pub open spec fn is_nested(self) -> bool {
        self.tri_indices@.len() > 0 ==> encloses(
            self.nodes@,
            self.tri_indices@,
            self.tri_bounds@,
            0,
            0,
        )
    }

    /// The boxes of the tree are those of the triangles of a mesh, and of more and more of them.
    pub open spec fn encloses_all(self, mesh: Mesh) -> bool {
        self.tri_bounds@ == tri_boxes(mesh) && self.is_nested()
    }
}

proof fn lemma_tree_shape<M: BoxMath>(
    math: M,
    nodes: Seq<BvhNode>,
    order: Seq<u32>,
    cents: Seq<[u32; 3]>,
    boxes: Seq<Bounds>,
    ni: int,
    start: int,
    count: int,
)
    requires
        is_tree(math, nodes, order, cents, boxes, ni, start, count),
    ensures
        is_shape(nodes, ni, start),
        width(nodes, ni) == count,
    decreases count,
{
    if count > LEAF_TRIS {
        let node = nodes[ni];
        let left = choose|left: int|
            {
                &&& 0 < left < count
                &&& #[trigger] is_split(math, node.bounds, cents, order, start, count, left)
                &&& is_tree(math, nodes, order, cents, boxes, node.left_first as int, start, left)
                &&& is_tree(
                    math,
                    nodes,
                    order,
                    cents,
                    boxes,
                    node.right as int,
                    start + left,
                    count - left,
                )
            };
        lemma_tree_shape(math, nodes, order, cents, boxes, node.left_first as int, start, left);
        lemma_tree_shape(
            math,
            nodes,
            order,
            cents,
            boxes,
            node.right as int,
            start + left,
            count - left,
        );
    }
}

proof fn lemma_tree_encloses<M: BoxMath>(
    math: M,
    nodes: Seq<BvhNode>,
    order: Seq<u32>,
    cents: Seq<[u32; 3]>,
    mesh: Mesh,
    ni: int,
    start: int,
    count: int,
)
    requires
        is_tree(math, nodes, order, cents, tri_boxes(mesh), ni, start, count),
        forall|i: int| 0 <= i < order.len() ==> (#[trigger] order[i]) < tri_total(mesh),
        forall|t: int| 0 <= t < tri_total(mesh) ==> is_finite_box(#[trigger] tri_boxes(mesh)[t]),
    ensures
        encloses(nodes, order, tri_boxes(mesh), ni, start),
    decreases count,
{
    let boxes = tri_boxes(mesh);
    let node = nodes[ni];
    let all = part(order, start, count);
    lemma_tree_shape(math, nodes, order, cents, boxes, ni, start, count);
    assert forall|t: u32| #[trigger] all.contains(t) implies is_finite_box(boxes[t as int]) by {
        let i = choose|i: int| start <= i < start + count && #[trigger] order[i] == t;
        assert(order[i] < tri_total(mesh));
    }
    assert forall|i: int| start <= i < start + width(nodes, ni) implies within(
        boxes[#[trigger] order[i] as int],
        node.bounds,
    ) by {
        assert(all.contains(order[i]));
    }
    if count > LEAF_TRIS {
        let left = choose|left: int|
            {
                &&& 0 < left < count
                &&& #[trigger] is_split(math, node.bounds, cents, order, start, count, left)
                &&& is_tree(math, nodes, order, cents, boxes, node.left_first as int, start, left)
                &&& is_tree(
                    math,
                    nodes,
                    order,
                    cents,
                    boxes,
                    node.right as int,
                    start + left,
                    count - left,
                )
            };
        lemma_tree_shape(math, nodes, order, cents, boxes, node.left_first as int, start, left);
        lemma_tree_encloses(math, nodes, order, cents, mesh, node.left_first as int, start, left);
        lemma_tree_encloses(
            math,
            nodes,
            order,
            cents,
            mesh,
            node.right as int,
            start + left,
            count - left,
        );
    }
}

/// A tree that was built is sound: it holds every triangle once, and, for finite triangles, every
/// box holds the triangles below it.
pub proof fn law_built_trees_are_sound<M: BoxMath>(math: M, mesh: Mesh, bvh: MeshBvh)
    requires
        bvh.is_tree_of(math, mesh),
    ensures
        bvh.wf(tri_total(mesh)),
        (forall|t: int|
            0 <= t < tri_total(mesh) ==> is_finite_box(#[trigger] tri_boxes(mesh)[t]))
            ==> bvh.encloses_all(mesh),
{
    let n = tri_total(mesh) as int;
    if n > 0 {
        let cents = choose|cents: Seq<[u32; 3]>| #[trigger]
            are_centroids(math, mesh, cents) && is_tree(
                math,
                bvh.nodes@,
                bvh.tri_indices@,
                cents,
                tri_boxes(mesh),
                0,
                0,
                n,
            );
        lemma_tree_shape(math, bvh.nodes@, bvh.tri_indices@, cents, tri_boxes(mesh), 0, 0, n);
        if forall|t: int|
            0 <= t < tri_total(mesh) ==> is_finite_box(#[trigger] tri_boxes(mesh)[t]) {
            lemma_tree_encloses(math, bvh.nodes@, bvh.tri_indices@, cents, mesh, 0, 0, n);
        }
    }
}

/// Where a ray meets a triangle: how far along the ray, and where in the triangle.
#[derive(Clone, Copy, Debug, PartialEq, Eq, Structural)]
pub struct TriHit {
    pub t: u32,
    pub u: u32,
    pub v: u32,
}

/// A hit and the triangle that was hit.
#[derive(Clone, Copy, Debug, PartialEq, Eq, Structural)]
pub struct RayHit {
    pub tri: u32,
    pub at: TriHit,
}

/// A ray with its arithmetic.
pub trait RayProbe {
    /// Whether the ray goes through a box before a limit.
    fn enters(&self, b: Bounds, limit: u32) -> bool;

    /// How far along the ray a box begins.
    fn entry(&self, b: Bounds) -> u32;

    /// Where the ray meets a triangle.
    fn meets(&self, tri: Tri) -> Option<TriHit>;
}

/// An answer of the ray.
pub open spec fn enters_gives<P: RayProbe>(probe: P, b: Bounds, limit: u32, e: bool) -> bool {
    call_ensures(P::enters, (&probe, b, limit), e)
}

/// An answer of the ray.
pub open spec fn entry_gives<P: RayProbe>(probe: P, b: Bounds, x: u32) -> bool {
    call_ensures(P::entry, (&probe, b), x)
}

/// An answer of the ray.
pub open spec fn meets_gives<P: RayProbe>(probe: P, tri: Tri, o: Option<TriHit>) -> bool {
    call_ensures(P::meets, (&probe, tri), o)
}

/// The answers of a ray fit together: the same triangle gives the same answer, and a box that
/// holds a triangle is not passed over before the triangle is met.
pub open spec fn is_careful<P: RayProbe>(probe: P) -> bool {
    &&& forall|tri: Tri, a: Option<TriHit>, b: Option<TriHit>| #[trigger]
        meets_gives(probe, tri, a) && #[trigger] meets_gives(probe, tri, b) ==> a == b
    &&& forall|b: Bounds, tri: Tri, hit: TriHit, limit: u32, e: bool|
        #![trigger meets_gives(probe, tri, Some(hit)), enters_gives(probe, b, limit, e)]
        box_holds(b, tri) && meets_gives(probe, tri, Some(hit)) && crate::bits::is_less(
            hit.t,
            limit,
        ) && enters_gives(probe, b, limit, e) ==> e
    &&& forall|b: Bounds, tri: Tri, hit: TriHit, x: u32|
        #![trigger meets_gives(probe, tri, Some(hit)), entry_gives(probe, b, x)]
        box_holds(b, tri) && meets_gives(probe, tri, Some(hit)) && crate::bits::is_ordered(hit.t)
            && entry_gives(probe, b, x) ==> crate::bits::is_at_least(hit.t, x)
}

/// How far a hit is, or the end of the ray.
pub open spec fn limit_of(best: Option<RayHit>) -> u32 {
    match best {
        Some(h) => h.at.t,
        None => LARGEST,
    }
}

/// A hit is one that the ray gives for its triangle.
pub open spec fn is_hit<P: RayProbe>(probe: P, mesh: Mesh, h: RayHit) -> bool {
    &&& h.tri < tri_total(mesh)
    &&& meets_gives(probe, tri_of(mesh, h.tri as int), Some(h.at))
}

/// No triangle among some places of the order is met before a limit.
pub open spec fn none_before<P: RayProbe>(
    probe: P,
    mesh: Mesh,
    order: Seq<u32>,
    start: int,
    count: int,
    limit: u32,
) -> bool {
    forall|i: int, hit: TriHit|
        start <= i < start + count && #[trigger] meets_gives(
            probe,
            tri_of(mesh, #[trigger] order[i] as int),
            Some(hit),
        ) ==> !crate::bits::is_less(hit.t, limit)
}

/// The closest hit of a ray on a mesh.
pub open spec fn is_closest<P: RayProbe>(probe: P, mesh: Mesh, r: Option<RayHit>) -> bool {
    forall|t: int, hit: TriHit|
        0 <= t < tri_total(mesh) && #[trigger] meets_gives(probe, tri_of(mesh, t), Some(hit))
            ==> !crate::bits::is_less(hit.t, limit_of(r))
}

/// The better of the best hit so far and an answer for a triangle: a hit counts only if it is
/// closer.
pub open spec fn better(best: Option<RayHit>, tri: u32, answer: Option<TriHit>) -> Option<RayHit> {
    match answer {
        Some(at) => if crate::bits::is_less(at.t, limit_of(best)) {
            Some(RayHit { tri, at })
        } else {
            best
        },
        None => best,
    }
}

/// The best hit after the answers for some triangles, one after the other.
pub open spec fn best_of(
    best: Option<RayHit>,
    tris: Seq<u32>,
    answers: Seq<Option<TriHit>>,
) -> Option<RayHit>
    decreases answers.len(),
{
    if answers.len() == 0 {
        best
    } else {
        better(
            best_of(best, tris, answers.drop_last()),
            tris[answers.len() - 1],
            answers.last(),
        )
    }
}

/// The answers of a ray for the first of some triangles.
pub open spec fn tris_give<P: RayProbe>(
    probe: P,
    mesh: Mesh,
    tris: Seq<u32>,
    answers: Seq<Option<TriHit>>,
) -> bool {
    &&& answers.len() <= tris.len()
    &&& forall|k: int|
        0 <= k < answers.len() ==> meets_gives(
            probe,
            tri_of(mesh, tris[k] as int),
            #[trigger] answers[k],
        )
}

/// A hit that is the best one so far, or closer.
pub open spec fn no_farther(r: Option<RayHit>, best: Option<RayHit>) -> bool {
    r == best || crate::bits::is_less(limit_of(r), limit_of(best))
}

/// What a ray finds below a node, with the best hit so far. A box that the ray does not enter
/// before that hit is passed over. A leaf tries its triangles in order. Else the side that begins
/// first is searched first, and each side only if it begins before the best hit so far.
pub open spec fn is_cast<P: RayProbe>(
    probe: P,
    mesh: Mesh,
    nodes: Seq<BvhNode>,
    order: Seq<u32>,
    ni: int,
    best: Option<RayHit>,
    r: Option<RayHit>,
) -> bool
    decreases nodes.len() - ni,
{
    let limit = limit_of(best);
    let left = nodes[ni].left_first as int;
    let right = nodes[ni].right as int;
    &&& 0 <= ni < nodes.len()
    &&& {
        ||| enters_gives(probe, nodes[ni].bounds, limit, false) && r == best
        ||| enters_gives(probe, nodes[ni].bounds, limit, true) && if nodes[ni].tri_count > 0 {
            let tris = order.subrange(left, left + nodes[ni].tri_count);
            exists|answers: Seq<Option<TriHit>>| #[trigger]
                tris_give(probe, mesh, tris, answers) && answers.len() == tris.len() && r
                    == best_of(best, tris, answers)
        } else {
            &&& ni < left < nodes.len()
            &&& ni < right < nodes.len()
            &&& exists|x: u32, y: u32, m: Option<RayHit>|
                {
                    let (first, a, second, b) = if crate::bits::is_at_least(y, x) {
                        (left, x, right, y)
                    } else {
                        (right, y, left, x)
                    };
                    &&& #[trigger] entry_gives(probe, nodes[left].bounds, x)
                    &&& #[trigger] entry_gives(probe, nodes[right].bounds, y)
                    &&& #[trigger] no_farther(m, best)
                    &&& if crate::bits::is_less(a, limit) {
                        is_cast(probe, mesh, nodes, order, first, best, m)
                    } else {
                        m == best
                    }
                    &&& if crate::bits::is_less(b, limit) {
                        is_cast(probe, mesh, nodes, order, second, m, r)
                    } else {
                        r == m
                    }
                }
        }
    }
}

impl MeshBvh {
    /// Casts the ray through the tree below a node. A hit counts only if it is closer than the
    /// best one so far.
    fn cast<P: RayProbe>(
        &self,
        mesh: &Mesh,
        probe: &P,
        ni: usize,
        best: Option<RayHit>,
        Ghost(start): Ghost<int>,
    ) -> (r: Option<RayHit>)
        requires
            corners_exist(*mesh),
            self.holds_all(tri_total(*mesh)),
            is_shape(self.nodes@, ni as int, start),
            0 <= start,
            start + width(self.nodes@, ni as int) <= tri_total(*mesh),
            crate::bits::is_ordered(limit_of(best)),
        ensures
            is_cast(*probe, *mesh, self.nodes@, self.tri_indices@, ni as int, best, r),
            crate::bits::is_ordered(limit_of(r)),
            r != best ==> r is Some && is_hit(*probe, *mesh, r->0) && crate::bits::is_less(
                limit_of(r),
                limit_of(best),
            ),
            is_careful(*probe) && encloses(
                self.nodes@,
                self.tri_indices@,
                tri_boxes(*mesh),
                ni as int,
                start,
            ) ==> none_before(
                *probe,
                *mesh,
                self.tri_indices@,
                start,
                width(self.nodes@, ni as int) as int,
                limit_of(r),
            ),
        decreases self.nodes@.len() - ni,
    {
        let node = self.nodes[ni];
        let limit: u32 = match best {
            Some(h) => h.at.t,
            None => LARGEST,
        };
        let inside = probe.enters(node.bounds, limit);
        assert(enters_gives(*probe, node.bounds, limit, inside));
        if !inside {
            return best;
        }
        if node.tri_count > 0 {
            return self.cast_leaf(
                mesh,
                probe,
                node.left_first as usize,
                node.tri_count as usize,
                best,
            );
        }
        let left: usize = node.left_first as usize;
        let right: usize = node.right as usize;
        let t_l: u32 = probe.entry(self.nodes[left].bounds);
        let t_r: u32 = probe.entry(self.nodes[right].bounds);
        assert(entry_gives(*probe, self.nodes@[left as int].bounds, t_l));
        assert(entry_gives(*probe, self.nodes@[right as int].bounds, t_r));
        let ghost middle = start + width(self.nodes@, left as int);
        let take_left = less(t_l, limit);
        let take_right = less(t_r, limit);
        let mut r = best;
        if at_least(t_r, t_l) {
            if take_left {
                r = self.cast(mesh, probe, left, r, Ghost(start));
            }
            assert(no_farther(r, best));
            if take_right {
                r = self.cast(mesh, probe, right, r, Ghost(middle));
            }
        } else {
            if take_right {
                r = self.cast(mesh, probe, right, r, Ghost(middle));
            }
            assert(no_farther(r, best));
            if take_left {
                r = self.cast(mesh, probe, left, r, Ghost(start));
            }
        }
        proof {
            if is_careful(*probe) && encloses(
                self.nodes@,
                self.tri_indices@,
                tri_boxes(*mesh),
                ni as int,
                start,
            ) {
                let order = self.tri_indices@;
                let n = width(self.nodes@, ni as int) as int;
                assert(encloses(self.nodes@, order, tri_boxes(*mesh), left as int, start));
                assert(encloses(self.nodes@, order, tri_boxes(*mesh), right as int, middle));
                assert forall|i: int, hit: TriHit|
                    start <= i < start + n && #[trigger] meets_gives(
                        *probe,
                        tri_of(*mesh, #[trigger] order[i] as int),
                        Some(hit),
                    ) implies !crate::bits::is_less(hit.t, limit_of(r)) by {
                    let tri = tri_of(*mesh, order[i] as int);
                    assert(tri_boxes(*mesh)[order[i] as int] == box_of(tri));
                    if i < middle {
                        assert(box_holds(self.nodes@[left as int].bounds, tri));
                    } else {
                        assert(box_holds(self.nodes@[right as int].bounds, tri));
                    }
                }
            }
        }
        r
    }

    /// Casts the ray at the triangles of a leaf.
    fn cast_leaf<P: RayProbe>(
        &self,
        mesh: &Mesh,
        probe: &P,
        first: usize,
        count: usize,
        best: Option<RayHit>,
    ) -> (r: Option<RayHit>)
        requires
            corners_exist(*mesh),
            self.holds_all(tri_total(*mesh)),
            first + count <= tri_total(*mesh),
            crate::bits::is_ordered(limit_of(best)),
        ensures
            ({
                let tris = self.tri_indices@.subrange(first as int, first + count);
                exists|answers: Seq<Option<TriHit>>| #[trigger]
                    tris_give(*probe, *mesh, tris, answers) && answers.len() == count && r
                        == best_of(best, tris, answers)
            }),
            crate::bits::is_ordered(limit_of(r)),
            r != best ==> r is Some && is_hit(*probe, *mesh, r->0) && crate::bits::is_less(
                limit_of(r),
                limit_of(best),
            ),
            is_careful(*probe) ==> none_before(
                *probe,
                *mesh,
                self.tri_indices@,
                first as int,
                count as int,
                limit_of(r),
            ),
    {
        let mut r = best;
        let mut k: usize = 0;
        let ghost tris = self.tri_indices@.subrange(first as int, first + count);
        let ghost mut answers: Seq<Option<TriHit>> = Seq::empty();
        while k < count
            invariant
                k <= count,
                tris == self.tri_indices@.subrange(first as int, first + count),
                tris.len() == count,
                answers.len() == k,
                tris_give(*probe, *mesh, tris, answers),
                r == best_of(best, tris, answers),
                corners_exist(*mesh),
                self.holds_all(tri_total(*mesh)),
                first + count <= tri_total(*mesh),
                crate::bits::is_ordered(limit_of(best)),
                crate::bits::is_ordered(limit_of(r)),
                r != best ==> r is Some && is_hit(*probe, *mesh, r->0) && crate::bits::is_less(
                    limit_of(r),
                    limit_of(best),
                ),
                is_careful(*probe) ==> none_before(
                    *probe,
                    *mesh,
                    self.tri_indices@,
                    first as int,
                    k as int,
                    limit_of(r),
                ),
            decreases count - k,
        {
            assert(first + k < self.tri_indices.len());
            let ti: u32 = self.tri_indices[first + k];
            let tri: Tri = tri_at(mesh, ti as usize);
            let limit: u32 = match r {
                Some(h) => h.at.t,
                None => LARGEST,
            };
            let answer = probe.meets(tri);
            assert(meets_gives(*probe, tri, answer));
            let ghost before = r;
            match answer {
                Some(at) => {
                    if less(at.t, limit) {
                        r = Some(RayHit { tri: ti, at });
                    }
                },
                None => {},
            }
            proof {
                let longer = answers.push(answer);
                assert(longer.drop_last() =~= answers);
                assert(tris[k as int] == ti);
                answers = longer;
                if is_careful(*probe) {
                    let order = self.tri_indices@;
                    assert forall|i: int, hit: TriHit|
                        first <= i < first + (k + 1) && #[trigger] meets_gives(
                            *probe,
                            tri_of(*mesh, #[trigger] order[i] as int),
                            Some(hit),
                        ) implies !crate::bits::is_less(hit.t, limit_of(r)) by {
                        if i < first + k {
                            assert(!crate::bits::is_less(hit.t, limit_of(before)));
                        } else {
                            assert(answer == Some(hit));
                        }
                    }
                }
            }
            k += 1;
        }
        r
    }

    /// What a ray finds in the tree. In a tree without triangles it finds nothing.
    pub open spec fn casts<P: RayProbe>(self, mesh: Mesh, probe: P, r: Option<RayHit>) -> bool {
        if self.tri_indices@.len() == 0 {
            r is None
        } else {
            is_cast(probe, mesh, self.nodes@, self.tri_indices@, 0, None, r)
        }
    }

    /// The closest hit of a ray on the mesh of the tree. A ray whose answers fit together finds
    /// the closest triangle that it meets, if the boxes hold their triangles.
    pub fn raycast<P: RayProbe>(&self, mesh: &Mesh, probe: &P) -> (r: Option<RayHit>)
        requires
            corners_exist(*mesh),
            self.wf(tri_total(*mesh)),
        ensures
            self.casts(*mesh, *probe, r),
            r is Some ==> is_hit(*probe, *mesh, r->0) && crate::bits::is_less(
                r->0.at.t,
                LARGEST,
            ),
            is_careful(*probe) && self.encloses_all(*mesh) ==> is_closest(*probe, *mesh, r),
    {
        if self.nodes.len() == 0 || self.tri_indices.len() == 0 {
            return None;
        }
        let r = self.cast(mesh, probe, 0, None, Ghost(0int));
        proof {
            if is_careful(*probe) && self.encloses_all(*mesh) {
                let n = tri_total(*mesh);
                assert forall|t: int, hit: TriHit|
                    0 <= t < n && #[trigger] meets_gives(
                        *probe,
                        tri_of(*mesh, t),
                        Some(hit),
                    ) implies !crate::bits::is_less(hit.t, limit_of(r)) by {
                    lemma_holds_each(*self, n, t);
                    let i = choose|i: int|
                        0 <= i < n && #[trigger] self.tri_indices@[i] == t as u32;
                    assert(meets_gives(
                        *probe,
                        tri_of(*mesh, self.tri_indices@[i] as int),
                        Some(hit),
                    ));
                }
            }
        }
        r
    }
}

/// A list of `n` different numbers below `n` holds each of them.
proof fn lemma_holds_each(bvh: MeshBvh, n: nat, t: int)
    requires
        bvh.holds_all(n),
        0 <= t < n,
    ensures
        exists|i: int| 0 <= i < n && #[trigger] bvh.tri_indices@[i] == t as u32,
{
    let list = bvh.tri_indices@;
    let all = Set::<int>::new(|x: int| 0 <= x < n);
    let f = |x: u32| x as int;
    list.unique_seq_to_set();
    let got = list.to_set();
    vstd::set_lib::lemma_int_range(0, n as int);
    assert(vstd::set_lib::set_int_range(0, n as int) =~= all);
    let image = got.map(f);
    assert forall|x: int| #[trigger] image.contains(x) implies all.contains(x) by {
        let y = choose|y: u32| got.contains(y) && f(y) == x;
        let i = choose|i: int| 0 <= i < list.len() && list[i] == y;
        assert(list[i] < n);
    }
    vstd::set_lib::lemma_map_size(got, image, f);
    vstd::set_lib::lemma_subset_equality(image, all);
    assert(image.contains(t));
    let y = choose|y: u32| got.contains(y) && f(y) == t;
    let i = choose|i: int| 0 <= i < list.len() && list[i] == y;
    assert(list[i] == t as u32);
}

/// A test of boxes, such as whether a sphere touches them.
pub trait BoxTest {
    /// Whether a box passes.
    fn touches(&self, b: Bounds) -> bool;
}

/// An answer of the test.
pub open spec fn test_gives<S: BoxTest>(test: S, b: Bounds, e: bool) -> bool {
    call_ensures(S::touches, (&test, b), e)
}

/// The answers of the test for the boxes of some triangles.
pub open spec fn tests_give<S: BoxTest>(
    test: S,
    boxes: Seq<Bounds>,
    tris: Seq<u32>,
    answers: Seq<bool>,
) -> bool {
    &&& answers.len() == tris.len()
    &&& forall|k: int|
        0 <= k < tris.len() ==> test_gives(test, boxes[tris[k] as int], #[trigger] answers[k])
}

/// The triangles of a list whose answers are yes.
pub open spec fn accepted(tris: Seq<u32>, answers: Seq<bool>) -> Seq<u32>
    decreases tris.len(),
{
    if tris.len() == 0 {
        Seq::empty()
    } else {
        let before = accepted(tris.drop_last(), answers.drop_last());
        if answers.last() {
            before.push(tris.last())
        } else {
            before
        }
    }
}

/// A list cut in two.
pub open spec fn is_cut(list: Seq<u32>, k: int) -> bool {
    0 <= k <= list.len()
}

/// The triangles below a node that a test of boxes lets through: of the leaves that are reached,
/// those whose own boxes pass, the right side before the left.
pub open spec fn is_gathered<S: BoxTest>(
    test: S,
    nodes: Seq<BvhNode>,
    order: Seq<u32>,
    boxes: Seq<Bounds>,
    ni: int,
    list: Seq<u32>,
) -> bool
    decreases nodes.len() - ni,
{
    &&& 0 <= ni < nodes.len()
    &&& {
        ||| test_gives(test, nodes[ni].bounds, false) && list.len() == 0
        ||| test_gives(test, nodes[ni].bounds, true) && if nodes[ni].tri_count > 0 {
            let tris = order.subrange(
                nodes[ni].left_first as int,
                nodes[ni].left_first + nodes[ni].tri_count,
            );
            exists|answers: Seq<bool>| #[trigger]
                tests_give(test, boxes, tris, answers) && list == accepted(tris, answers)
        } else {
            &&& ni < nodes[ni].left_first < nodes.len()
            &&& ni < nodes[ni].right < nodes.len()
            &&& exists|k: int| #[trigger]
                is_cut(list, k) && is_gathered(
                    test,
                    nodes,
                    order,
                    boxes,
                    nodes[ni].right as int,
                    list.take(k),
                ) && is_gathered(
                    test,
                    nodes,
                    order,
                    boxes,
                    nodes[ni].left_first as int,
                    list.skip(k),
                )
        }
    }
}

impl MeshBvh {
    /// Adds the triangles of a leaf whose own boxes pass a test.
    fn gather_leaf<S: BoxTest>(&self, test: &S, first: usize, count: usize, out: &mut Vec<u32>)
        requires
            first + count <= self.tri_indices@.len(),
            self.wf(self.tri_indices@.len()),
        ensures
            ({
                let tris = self.tri_indices@.subrange(first as int, first + count);
                exists|answers: Seq<bool>| #[trigger]
                    tests_give(*test, self.tri_bounds@, tris, answers) && final(out)@ == old(out)@
                        + accepted(tris, answers)
            }),
    {
        let ghost mut answers: Seq<bool> = Seq::empty();
        let ghost tris = self.tri_indices@.subrange(first as int, first + count);
        let mut k: usize = 0;
        assert(out@ =~= old(out)@ + accepted(tris.take(0), answers));
        while k < count
            invariant
                k <= count,
                first + count <= self.tri_indices@.len(),
                self.wf(self.tri_indices@.len()),
                tris == self.tri_indices@.subrange(first as int, first + count),
                tests_give(*test, self.tri_bounds@, tris.take(k as int), answers),
                out@ == old(out)@ + accepted(tris.take(k as int), answers),
            decreases count - k,
        {
            assert(first + k < self.tri_indices.len());
            let t: u32 = self.tri_indices[first + k];
            let ghost before = out@;
            let hit = test.touches(self.tri_bounds[t as usize]);
            if hit {
                out.push(t);
            }
            proof {
                let longer = answers.push(hit);
                let more = tris.take(k + 1);
                assert(longer.drop_last() =~= answers);
                assert(more.drop_last() =~= tris.take(k as int));
                assert(more.last() == t);
                assert forall|j: int| 0 <= j < more.len() implies test_gives(
                    *test,
                    self.tri_bounds@[more[j] as int],
                    #[trigger] longer[j],
                ) by {
                    if j < k {
                        assert(more[j] == tris.take(k as int)[j]);
                        assert(longer[j] == answers[j]);
                    }
                }
                assert(out@ =~= old(out)@ + accepted(more, longer));
                answers = longer;
            }
            k += 1;
        }
        assert(tris.take(k as int) =~= tris);
    }

    /// Adds the triangles below a node that a test of boxes lets through.
    fn gather<S: BoxTest>(
        &self,
        test: &S,
        ni: usize,
        out: &mut Vec<u32>,
        Ghost(start): Ghost<int>,
    )
        requires
            self.wf(self.tri_indices@.len()),
            is_shape(self.nodes@, ni as int, start),
            0 <= start,
            start + width(self.nodes@, ni as int) <= self.tri_indices@.len(),
        ensures
            old(out)@.len() <= final(out)@.len(),
            final(out)@.take(old(out)@.len() as int) == old(out)@,
            is_gathered(
                *test,
                self.nodes@,
                self.tri_indices@,
                self.tri_bounds@,
                ni as int,
                final(out)@.skip(old(out)@.len() as int),
            ),
        decreases self.nodes@.len() - ni,
    {
        let node = self.nodes[ni];
        let hit = test.touches(node.bounds);
        assert(test_gives(*test, node.bounds, hit));
        let ghost n0 = out@.len() as int;
        let ghost before = out@;
        if !hit {
            assert(out@.take(n0) =~= before);
            assert(out@.skip(n0).len() == 0);
            return ;
        }
        if node.tri_count > 0 {
            let first: usize = node.left_first as usize;
            let count: usize = node.tri_count as usize;
            self.gather_leaf(test, first, count, out);
            proof {
                let tris = self.tri_indices@.subrange(first as int, first + count);
                let answers = choose|answers: Seq<bool>| #[trigger]
                    tests_give(*test, self.tri_bounds@, tris, answers) && out@ == before
                        + accepted(tris, answers);
                assert(out@.take(n0) =~= before);
                assert(out@.skip(n0) =~= accepted(tris, answers));
            }
            return ;
        }
        let ghost middle = start + width(self.nodes@, node.left_first as int);
        self.gather(test, node.right as usize, out, Ghost(middle));
        let ghost n1 = out@.len() as int;
        let ghost between = out@;
        self.gather(test, node.left_first as usize, out, Ghost(start));
        proof {
            let list = out@.skip(n0);
            let k = n1 - n0;
            assert(out@.take(n0) =~= before) by {
                assert(out@.take(n0) =~= between.take(n0)) by {
                    assert forall|i: int| 0 <= i < n0 implies out@.take(n0)[i] == between.take(
                        n0,
                    )[i] by {
                        assert(out@.take(n1)[i] == between[i]);
                    }
                }
            }
            assert(list.take(k) =~= between.skip(n0)) by {
                assert forall|i: int| 0 <= i < k implies list.take(k)[i] == between.skip(
                    n0,
                )[i] by {
                    assert(out@.take(n1)[n0 + i] == between[n0 + i]);
                }
            }
            assert(list.skip(k) =~= out@.skip(n1));
            assert(is_cut(list, k));
        }
    }

    /// What a sphere gathers: nothing if it has no positive radius or there are no triangles.
    pub open spec fn gathers<S: BoxTest>(self, radius: u32, test: S, list: Seq<u32>) -> bool {
        if crate::bits::is_at_least(ZERO, radius) || self.tri_indices@.len() == 0 {
            list.len() == 0
        } else {
            is_gathered(test, self.nodes@, self.tri_indices@, self.tri_bounds@, 0, list)
        }
    }

    /// The triangles whose boxes touch a sphere, each once. A sphere without a positive radius
    /// touches nothing. With a test that never refuses a box around a box that it accepts, none is
    /// missed.
    pub fn gather_sphere<S: BoxTest>(
        &self,
        radius: u32,
        test: &S,
        out: &mut Vec<u32>,
    )
        requires
            self.wf(self.tri_indices@.len()),
        ensures
            self.gathers(radius, *test, final(out)@),
            final(out)@.no_duplicates(),
            forall|t: u32| #[trigger]
                final(out)@.contains(t) ==> t < self.tri_bounds@.len() && test_gives(
                    *test,
                    self.tri_bounds@[t as int],
                    true,
                ),
            !crate::bits::is_at_least(ZERO, radius) && is_monotone(*test) && self.is_nested()
                ==> forall|t: u32|
                t < self.tri_bounds@.len() && test_gives(*test, self.tri_bounds@[t as int], true)
                    ==> #[trigger] final(out)@.contains(t),
    {
        out.clear();
        if self.nodes.len() == 0 || self.tri_indices.len() == 0 || at_least(ZERO, radius) {
            return ;
        }
        self.gather(test, 0, out, Ghost(0int));
        proof {
            assert(out@.skip(0) =~= out@);
            lemma_gathered_sound(*test, *self, 0, 0, out@);
            if is_monotone(*test) && self.is_nested() {
                assert forall|t: u32|
                    t < self.tri_bounds@.len() && test_gives(
                        *test,
                        self.tri_bounds@[t as int],
                        true,
                    ) implies #[trigger] out@.contains(t) by {
                    let n = self.tri_indices@.len();
                    lemma_holds_each(*self, n, t as int);
                    let i = choose|i: int| 0 <= i < n && #[trigger] self.tri_indices@[i] == t;
                    lemma_gathers(*test, *self, 0, 0, out@, i);
                }
            }
        }
    }
}

/// A box test that lets a larger box through wherever it lets a smaller one through.
pub open spec fn is_monotone<S: BoxTest>(test: S) -> bool {
    forall|small: Bounds, large: Bounds, e: bool|
        #![trigger test_gives(test, small, true), test_gives(test, large, e)]
        test_gives(test, small, true) && test_gives(test, large, e) && within(
            small,
            large,
        ) ==> e
}

/// What is accepted: the triangles whose answers are yes, and no others.
pub proof fn lemma_accepted(tris: Seq<u32>, answers: Seq<bool>)
    requires
        answers.len() == tris.len(),
    ensures
        forall|x: u32| #[trigger]
            accepted(tris, answers).contains(x) <==> exists|k: int|
                0 <= k < tris.len() && #[trigger] tris[k] == x && answers[k],
        tris.no_duplicates() ==> accepted(tris, answers).no_duplicates(),
    decreases tris.len(),
{
    if tris.len() > 0 {
        let a = tris.drop_last();
        let f = answers.drop_last();
        let n = tris.len() - 1;
        lemma_accepted(a, f);
        let rest = accepted(a, f);
        let all = accepted(tris, answers);
        assert forall|x: u32| #[trigger] all.contains(x) <==> exists|k: int|
            0 <= k < tris.len() && #[trigger] tris[k] == x && answers[k] by {
            if all.contains(x) {
                if rest.contains(x) {
                    let k = choose|k: int| 0 <= k < a.len() && #[trigger] a[k] == x && f[k];
                    assert(tris[k] == x && answers[k]);
                } else {
                    let j = choose|j: int| 0 <= j < all.len() && all[j] == x;
                    if j < rest.len() {
                        assert(rest[j] == x);
                    }
                    assert(tris[n] == x && answers[n]);
                }
            }
            if exists|k: int| 0 <= k < tris.len() && #[trigger] tris[k] == x && answers[k] {
                let k = choose|k: int| 0 <= k < tris.len() && #[trigger] tris[k] == x && answers[k];
                if k < n {
                    assert(a[k] == x && f[k]);
                    assert(rest.contains(x));
                    let j = choose|j: int| 0 <= j < rest.len() && rest[j] == x;
                    assert(all[j] == x);
                } else {
                    assert(all[rest.len() as int] == x);
                }
            }
        }
        if tris.no_duplicates() {
            assert(a.no_duplicates());
            if answers.last() {
                assert(!rest.contains(tris.last())) by {
                    if rest.contains(tris.last()) {
                        let k = choose|k: int|
                            0 <= k < a.len() && #[trigger] a[k] == tris.last() && f[k];
                        assert(tris[k] == tris[n]);
                    }
                }
            }
        }
    }
}

/// What was gathered below a node lies below it, passed the test, and occurs once.
proof fn lemma_gathered_sound<S: BoxTest>(
    test: S,
    bvh: MeshBvh,
    ni: int,
    start: int,
    list: Seq<u32>,
)
    requires
        bvh.wf(bvh.tri_indices@.len()),
        is_shape(bvh.nodes@, ni, start),
        0 <= start,
        start + width(bvh.nodes@, ni) <= bvh.tri_indices@.len(),
        is_gathered(test, bvh.nodes@, bvh.tri_indices@, bvh.tri_bounds@, ni, list),
    ensures
        list.no_duplicates(),
        forall|t: u32| #[trigger]
            list.contains(t) ==> t < bvh.tri_bounds@.len() && test_gives(
                test,
                bvh.tri_bounds@[t as int],
                true,
            ) && exists|i: int|
                start <= i < start + width(bvh.nodes@, ni) && #[trigger] bvh.tri_indices@[i] == t,
    decreases bvh.nodes@.len() - ni,
{
    let nodes = bvh.nodes@;
    let order = bvh.tri_indices@;
    let boxes = bvh.tri_bounds@;
    let node = nodes[ni];
    if list.len() == 0 {
    } else if node.tri_count > 0 {
        let tris = order.subrange(
            node.left_first as int,
            node.left_first + node.tri_count,
        );
        let answers = choose|answers: Seq<bool>| #[trigger]
            tests_give(test, boxes, tris, answers) && list == accepted(tris, answers);
        lemma_accepted(tris, answers);
        assert(tris.no_duplicates());
        assert forall|t: u32| #[trigger] list.contains(t) implies t < boxes.len() && test_gives(
            test,
            boxes[t as int],
            true,
        ) && exists|i: int|
            start <= i < start + width(nodes, ni) && #[trigger] order[i] == t by {
            let k = choose|k: int| 0 <= k < tris.len() && #[trigger] tris[k] == t && answers[k];
            assert(order[start + k] == t);
        }
    } else {
        let left = node.left_first as int;
        let right = node.right as int;
        let middle = start + width(nodes, left);
        let k = choose|k: int| #[trigger]
            is_cut(list, k) && is_gathered(test, nodes, order, boxes, right, list.take(k))
                && is_gathered(test, nodes, order, boxes, left, list.skip(k));
        let a = list.take(k);
        let b = list.skip(k);
        lemma_gathered_sound(test, bvh, right, middle, a);
        lemma_gathered_sound(test, bvh, left, start, b);
        assert(list =~= a + b);
        assert forall|t: u32| #[trigger] list.contains(t) implies a.contains(t) || b.contains(t) by {
            let j = choose|j: int| 0 <= j < list.len() && list[j] == t;
            if j < k {
                assert(a[j] == t);
            } else {
                assert(b[j - k] == t);
            }
        }
        assert forall|x: int, y: int| 0 <= x < y < list.len() implies list[x] != list[y] by {
            if y < k {
                assert(a[x] != a[y]);
            } else if x >= k {
                assert(b[x - k] != b[y - k]);
            } else {
                assert(a.contains(a[x]));
                assert(b.contains(b[y - k]));
                let i = choose|i: int|
                    middle <= i < middle + width(nodes, right) && #[trigger] order[i] == a[x];
                let j = choose|j: int|
                    start <= j < start + width(nodes, left) && #[trigger] order[j] == b[y - k];
                assert(order[i] != order[j]);
            }
        }
    }
}

/// A triangle below a node whose own box is accepted is gathered.
proof fn lemma_gathers<S: BoxTest>(
    test: S,
    bvh: MeshBvh,
    ni: int,
    start: int,
    list: Seq<u32>,
    i: int,
)
    requires
        bvh.wf(bvh.tri_indices@.len()),
        is_shape(bvh.nodes@, ni, start),
        encloses(bvh.nodes@, bvh.tri_indices@, bvh.tri_bounds@, ni, start),
        is_monotone(test),
        is_gathered(test, bvh.nodes@, bvh.tri_indices@, bvh.tri_bounds@, ni, list),
        0 <= start <= i < start + width(bvh.nodes@, ni),
        start + width(bvh.nodes@, ni) <= bvh.tri_indices@.len(),
        test_gives(test, bvh.tri_bounds@[bvh.tri_indices@[i] as int], true),
    ensures
        list.contains(bvh.tri_indices@[i]),
    decreases bvh.nodes@.len() - ni,
{
    let nodes = bvh.nodes@;
    let order = bvh.tri_indices@;
    let boxes = bvh.tri_bounds@;
    let node = nodes[ni];
    let own = boxes[order[i] as int];
    assert(within(own, node.bounds));
    assert(within(own, own));
    assert(test_gives(test, own, true));
    assert(!(test_gives(test, node.bounds, false)));
    if node.tri_count > 0 {
        let tris = order.subrange(
            node.left_first as int,
            node.left_first + node.tri_count,
        );
        let answers = choose|answers: Seq<bool>| #[trigger]
            tests_give(test, boxes, tris, answers) && list == accepted(tris, answers);
        lemma_accepted(tris, answers);
        let k = i - start;
        assert(tris[k] == order[i]);
        assert(test_gives(test, own, answers[k]));
        assert(answers[k]);
    } else {
        let left = node.left_first as int;
        let right = node.right as int;
        let k = choose|k: int| #[trigger]
            is_cut(list, k) && is_gathered(test, nodes, order, boxes, right, list.take(k))
                && is_gathered(test, nodes, order, boxes, left, list.skip(k));
        let middle = start + width(nodes, left);
        if i < middle {
            lemma_gathers(test, bvh, left, start, list.skip(k), i);
            let j = choose|j: int| 0 <= j < list.skip(k).len() && list.skip(k)[j] == order[i];
            assert(list[k + j] == order[i]);
        } else {
            lemma_gathers(test, bvh, right, middle, list.take(k), i);
            let j = choose|j: int| 0 <= j < list.take(k).len() && list.take(k)[j] == order[i];
            assert(list[j] == order[i]);
        }
    }
}

/// Gathering gives exactly the triangles whose boxes the test accepts, each once: for a positive
/// radius, boxes that hold those below them, and a test that never refuses a box around a box that
/// it accepts.
pub proof fn law_gathering_misses_nothing<S: BoxTest>(
    bvh: MeshBvh,
    radius: u32,
    test: S,
    list: Seq<u32>,
    t: u32,
)
    requires
        bvh.wf(bvh.tri_indices@.len()),
        bvh.is_nested(),
        is_monotone(test),
        !crate::bits::is_at_least(ZERO, radius),
        bvh.gathers(radius, test, list),
    ensures
        list.no_duplicates(),
        list.contains(t) <==> t < bvh.tri_bounds@.len() && test_gives(
            test,
            bvh.tri_bounds@[t as int],
            true,
        ),
{
    let n = bvh.tri_indices@.len();
    if n > 0 {
        lemma_gathered_sound(test, bvh, 0, 0, list);
        if t < n && test_gives(test, bvh.tri_bounds@[t as int], true) {
            lemma_holds_each(bvh, n, t as int);
            let i = choose|i: int| 0 <= i < n && #[trigger] bvh.tri_indices@[i] == t;
            lemma_gathers(test, bvh, 0, 0, list, i);
        }
    }
}

/// Gathering from the tree of a mesh gives exactly the triangles whose own boxes the test accepts,
/// each once: for a positive radius, finite triangles, and a test that never refuses a box around
/// a box that it accepts.
pub proof fn law_gathering_is_exact<M: BoxMath, S: BoxTest>(
    math: M,
    mesh: Mesh,
    bvh: MeshBvh,
    radius: u32,
    test: S,
    list: Seq<u32>,
    t: u32,
)
    requires
        bvh.is_tree_of(math, mesh),
        forall|t: int| 0 <= t < tri_total(mesh) ==> is_finite_box(#[trigger] tri_boxes(mesh)[t]),
        is_monotone(test),
        !crate::bits::is_at_least(ZERO, radius),
        bvh.gathers(radius, test, list),
    ensures
        list.no_duplicates(),
        list.contains(t) <==> t < tri_total(mesh) && test_gives(
            test,
            box_of(tri_of(mesh, t as int)),
            true,
        ),
{
    law_built_trees_are_sound(math, mesh, bvh);
    law_gathering_misses_nothing(bvh, radius, test, list, t);
}

/// The box of a triangle holds its corners and goes through them: along every axis its sides are
/// the least and the greatest coordinate.
pub proof fn law_boxes_go_through_the_corners(tri: Tri, axis: int, c: int)
    requires
        0 <= axis < 3,
        0 <= c < 3,
        forall|k: int| 0 <= k < 3 ==> crate::bits::is_ordered((#[trigger] tri[k])[axis]),
    ensures
        ({
            let b = box_of(tri);
            let v = crate::bits::value(tri[c][axis]);
            &&& crate::bits::value(b.min[axis]) <= v <= crate::bits::value(b.max[axis])
            &&& b.min[axis] == tri[0][axis] || b.min[axis] == tri[1][axis] || b.min[axis]
                == tri[2][axis]
            &&& b.max[axis] == tri[0][axis] || b.max[axis] == tri[1][axis] || b.max[axis]
                == tri[2][axis]
        }),
{
    assert(axis == 0 || axis == 1 || axis == 2);
    assert(c == 0 || c == 1 || c == 2);
    let x = tri[0][axis];
    let y = tri[1][axis];
    let z = tri[2][axis];
    assert(crate::bits::is_ordered(x) && crate::bits::is_ordered(y) && crate::bits::is_ordered(z));
    crate::bits::law_larger_and_smaller(x, y);
    crate::bits::law_larger_and_smaller(crate::bits::lower_of(x, y), z);
    crate::bits::law_larger_and_smaller(crate::bits::upper_of(x, y), z);
}

/// A node is split along an axis along which its box is at least as long as along the others.
pub proof fn law_splits_go_along_the_longest_axis<M: BoxMath>(
    math: M,
    b: Bounds,
    axis: int,
) -> (d: [u32; 3])
    requires
        is_longest_axis(math, b, axis),
    ensures
        0 <= axis < 3,
        forall|k: int|
            0 <= k < 3 ==> call_ensures(M::minus, (&math, b.max[k], b.min[k]), #[trigger] d[k]),
        forall|k: int|
            0 <= k < 3 && crate::bits::is_ordered(d[0]) && crate::bits::is_ordered(d[1])
                && crate::bits::is_ordered(d[2]) ==> crate::bits::value(#[trigger] d[k])
                <= crate::bits::value(d[axis]),
{
    let (x, y, z) = choose|x: u32, y: u32, z: u32|
        #![trigger differs(math, b, 0, x), differs(math, b, 1, y), differs(math, b, 2, z)]
        {
            &&& differs(math, b, 0, x)
            &&& differs(math, b, 1, y)
            &&& differs(math, b, 2, z)
            &&& axis == if crate::bits::is_at_least(x, y) && crate::bits::is_at_least(x, z) {
                0int
            } else if crate::bits::is_at_least(y, z) {
                1
            } else {
                2
            }
        };
    let d = [x, y, z];
    assert forall|k: int| 0 <= k < 3 implies call_ensures(
        M::minus,
        (&math, b.max[k], b.min[k]),
        #[trigger] d[k],
    ) by {
        assert(k == 0 || k == 1 || k == 2);
        if k == 0 {
            assert(differs(math, b, 0, x));
        } else if k == 1 {
            assert(differs(math, b, 1, y));
        } else {
            assert(differs(math, b, 2, z));
        }
    }
    crate::bits::law_comparisons_go_by_value(x, y);
    crate::bits::law_comparisons_go_by_value(x, z);
    crate::bits::law_comparisons_go_by_value(y, z);
    d
}

/// A new hit replaces the best one only if it is nearer; of hits at the same distance the first
/// one found stays.
pub proof fn law_only_nearer_hits_count(best: Option<RayHit>, tri: u32, answer: Option<TriHit>)
    ensures
        answer is None ==> better(best, tri, answer) == best,
        best is None && answer is Some && crate::bits::is_less(answer->0.t, 0x7f7f_ffff) ==> better(
            best,
            tri,
            answer,
        ) == Some(RayHit { tri, at: answer->0 }),
        best is Some && answer is Some && crate::bits::is_ordered(answer->0.t)
            && crate::bits::is_ordered(best->0.at.t) ==> better(best, tri, answer) == (
        if crate::bits::value(answer->0.t) < crate::bits::value(best->0.at.t) {
            Some(RayHit { tri, at: answer->0 })
        } else {
            best
        }),
{
    if best is Some && answer is Some {
        crate::bits::law_comparisons_go_by_value(answer->0.t, best->0.at.t);
    }
}

/// A sphere without a positive radius gathers nothing.
pub proof fn law_no_radius_gathers_nothing<S: BoxTest>(
    bvh: MeshBvh,
    radius: u32,
    test: S,
    list: Seq<u32>,
)
    requires
        bvh.gathers(radius, test, list),
        crate::bits::is_ordered(radius),
        crate::bits::value(radius) <= 0,
    ensures
        list.len() == 0,
{
    crate::bits::law_comparisons_go_by_value(0, radius);
}

/// Up to eight triangles stay together in a leaf, which names all of them; more are never a leaf.
pub proof fn law_leaves_hold_up_to_eight<M: BoxMath>(
    math: M,
    nodes: Seq<BvhNode>,
    order: Seq<u32>,
    cents: Seq<[u32; 3]>,
    boxes: Seq<Bounds>,
    ni: int,
    start: int,
    count: int,
)
    requires
        is_tree(math, nodes, order, cents, boxes, ni, start, count),
    ensures
        count <= 8 ==> nodes[ni].tri_count == count && nodes[ni].left_first == start,
        count > 8 ==> nodes[ni].tri_count == 0,
{
}

} // verus!
