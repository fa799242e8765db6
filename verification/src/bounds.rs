//! The space that the nodes take up.

use vstd::prelude::*;

use crate::bits::{finite, lower, upper, LARGEST, LOWEST, ONE, ZERO};
use crate::bvh::Bounds;
use crate::mesh::Mesh;
use crate::scene::{Handle, Scene};

verus! {

/// A box that holds nothing.
pub open spec fn nothing() -> Bounds {
    Bounds { min: [LARGEST, LARGEST, LARGEST], max: [LOWEST, LOWEST, LOWEST] }
}

/// A box that is made to hold another one, too.
pub open spec fn joined(a: Bounds, b: Bounds) -> Bounds {
    Bounds {
        min: [
            crate::bits::lower_of(a.min[0], b.min[0]),
            crate::bits::lower_of(a.min[1], b.min[1]),
            crate::bits::lower_of(a.min[2], b.min[2]),
        ],
        max: [
            crate::bits::upper_of(a.max[0], b.max[0]),
            crate::bits::upper_of(a.max[1], b.max[1]),
            crate::bits::upper_of(a.max[2], b.max[2]),
        ],
    }
}

fn join(a: &Bounds, b: &Bounds) -> (c: Bounds)
    ensures
        c == joined(*a, *b),
{
    Bounds {
        min: [lower(a.min[0], b.min[0]), lower(a.min[1], b.min[1]), lower(a.min[2], b.min[2])],
        max: [upper(a.max[0], b.max[0]), upper(a.max[1], b.max[1]), upper(a.max[2], b.max[2])],
    }
}

/// The box of some points, beginning with nothing.
pub open spec fn box_of(points: Seq<[u32; 3]>) -> Bounds
    decreases points.len(),
{
    if points.len() == 0 {
        nothing()
    } else {
        joined(box_of(points.drop_last()), Bounds { min: points.last(), max: points.last() })
    }
}

/// The box of a mesh in the world: that of its points, or the unit box if they make none.
pub open spec fn world_box(points: Seq<[u32; 3]>) -> Bounds {
    let b = box_of(points);
    if crate::bits::is_finite(b.min[0]) && crate::bits::is_finite(b.min[1])
        && crate::bits::is_finite(b.min[2]) {
        b
    } else {
        Bounds { min: [ZERO, ZERO, ZERO], max: [ONE, ONE, ONE] }
    }
}

/// Some points as a placement moves them.
pub open spec fn are_placed<F: Fn([u32; 3]) -> [u32; 3]>(
    place: F,
    from: Seq<[u32; 3]>,
    to: Seq<[u32; 3]>,
) -> bool {
    &&& to.len() == from.len()
    &&& forall|i: int| 0 <= i < from.len() ==> call_ensures(place, (from[i],), #[trigger] to[i])
}

/// The box of a mesh in the world, where a placement puts its points.
pub fn mesh_world_aabb<F: Fn([u32; 3]) -> [u32; 3]>(mesh: &Mesh, place: &F) -> (b: Bounds)
    requires
        forall|p: [u32; 3]| call_requires(*place, (p,)),
    ensures
        exists|points: Seq<[u32; 3]>| #[trigger]
            are_placed(*place, mesh.positions@, points) && b == world_box(points),
{
    let mut b = Bounds { min: [LARGEST, LARGEST, LARGEST], max: [LOWEST, LOWEST, LOWEST] };
    let mut i: usize = 0;
    let ghost mut points: Seq<[u32; 3]> = Seq::empty();
    while i < mesh.positions.len()
        invariant
            i <= mesh.positions@.len(),
            forall|p: [u32; 3]| call_requires(*place, (p,)),
            points.len() == i,
            forall|k: int|
                0 <= k < i ==> call_ensures(
                    *place,
                    (mesh.positions@[k],),
                    #[trigger] points[k],
                ),
            b == box_of(points),
        decreases mesh.positions@.len() - i,
    {
        let p: [u32; 3] = place(mesh.positions[i]);
        b = join(&b, &Bounds { min: p, max: p });
        proof {
            let before = points;
            points = points.push(p);
            assert(points.drop_last() =~= before);
        }
        i += 1;
    }
    assert(are_placed(*place, mesh.positions@, points));
    if finite(b.min[0]) && finite(b.min[1]) && finite(b.min[2]) {
        b
    } else {
        Bounds { min: [ZERO, ZERO, ZERO], max: [ONE, ONE, ONE] }
    }
}

/// The nodes that show a mesh.
pub open spec fn showing(scene: Scene, nodes: Seq<Handle>) -> Seq<Handle>
    decreases nodes.len(),
{
    if nodes.len() == 0 {
        Seq::empty()
    } else if scene.shown(nodes.last()) is Some {
        showing(scene, nodes.drop_last()).push(nodes.last())
    } else {
        showing(scene, nodes.drop_last())
    }
}

/// A box around some boxes, beginning with nothing.
pub open spec fn box_around(boxes: Seq<Bounds>) -> Bounds
    decreases boxes.len(),
{
    if boxes.len() == 0 {
        nothing()
    } else {
        joined(box_around(boxes.drop_last()), boxes.last())
    }
}

/// The boxes of some nodes.
pub open spec fn are_boxes<F: Fn(Handle) -> Bounds>(
    place: F,
    nodes: Seq<Handle>,
    boxes: Seq<Bounds>,
) -> bool {
    &&& boxes.len() == nodes.len()
    &&& forall|i: int|
        0 <= i < nodes.len() ==> call_ensures(place, (nodes[i],), #[trigger] boxes[i])
}

/// The box around the nodes of a list that show a mesh, if there are any.
pub fn bounds_of_nodes<F: Fn(Handle) -> Bounds>(scene: &Scene, nodes: &Vec<Handle>, place: &F) -> (b:
    Option<Bounds>)
    requires
        forall|h: Handle| call_requires(*place, (h,)),
    ensures
        match b {
            Some(b) => showing(*scene, nodes@).len() > 0 && exists|boxes: Seq<Bounds>| #[trigger]
                are_boxes(*place, showing(*scene, nodes@), boxes) && b == box_around(boxes),
            None => showing(*scene, nodes@).len() == 0,
        },
{
    let mut b = Bounds { min: [LARGEST, LARGEST, LARGEST], max: [LOWEST, LOWEST, LOWEST] };
    let mut any = false;
    let mut i: usize = 0;
    let ghost mut boxes: Seq<Bounds> = Seq::empty();
    assert(showing(*scene, nodes@.take(0)) =~= Seq::empty());
    while i < nodes.len()
        invariant
            i <= nodes@.len(),
            forall|h: Handle| call_requires(*place, (h,)),
            are_boxes(*place, showing(*scene, nodes@.take(i as int)), boxes),
            any == (boxes.len() > 0),
            b == box_around(boxes),
        decreases nodes@.len() - i,
    {
        let ghost was = showing(*scene, nodes@.take(i as int));
        assert(nodes@.take(i + 1).drop_last() =~= nodes@.take(i as int));
        if scene.mesh_of(nodes[i]).is_some() {
            let one: Bounds = place(nodes[i]);
            b = join(&b, &one);
            any = true;
            proof {
                let before = boxes;
                boxes = boxes.push(one);
                assert(boxes.drop_last() =~= before);
                let now = showing(*scene, nodes@.take(i + 1));
                assert(now == was.push(nodes@[i as int]));
                assert forall|k: int| 0 <= k < now.len() implies call_ensures(
                    *place,
                    (now[k],),
                    #[trigger] boxes[k],
                ) by {
                    if k < was.len() {
                        assert(boxes[k] == before[k]);
                    }
                }
            }
        }
        i += 1;
    }
    assert(nodes@.take(i as int) =~= nodes@);
    if any {
        Some(b)
    } else {
        None
    }
}

/// All coordinates of a point are finite.
pub open spec fn is_finite_point(p: [u32; 3]) -> bool {
    crate::bits::is_finite(p[0]) && crate::bits::is_finite(p[1]) && crate::bits::is_finite(p[2])
}

/// A side of a box along an axis is the coordinate of some point.
pub open spec fn is_reached(side: u32, points: Seq<[u32; 3]>, axis: int) -> bool {
    exists|i: int| 0 <= i < points.len() && (#[trigger] points[i])[axis] == side
}

/// The box of some points holds all of them, and no box that does is smaller: each of its sides
/// goes through one of them.
pub proof fn law_the_box_is_tight(points: Seq<[u32; 3]>, axis: int, i: int)
    requires
        points.len() > 0,
        forall|k: int| 0 <= k < points.len() ==> is_finite_point(#[trigger] points[k]),
        0 <= axis < 3,
        0 <= i < points.len(),
    ensures
        ({
            let b = box_of(points);
            let x = crate::bits::value(points[i][axis]);
            &&& crate::bits::value(b.min[axis]) <= x <= crate::bits::value(b.max[axis])
            &&& is_reached(b.min[axis], points, axis)
            &&& is_reached(b.max[axis], points, axis)
            &&& world_box(points) == b
        }),
{
    lemma_box(points, axis);
    lemma_box(points, 0);
    lemma_box(points, 1);
    lemma_box(points, 2);
    let b = box_of(points);
    let x = points[i][axis];
    assert(is_finite_point(points[i]));
    let lo = choose|k: int| 0 <= k < points.len() && (#[trigger] points[k])[axis] == b.min[axis];
    let hi = choose|k: int| 0 <= k < points.len() && (#[trigger] points[k])[axis] == b.max[axis];
    assert(is_finite_point(points[lo]) && is_finite_point(points[hi]));
    crate::bits::law_keys_order_numbers(x, b.min[axis]);
    crate::bits::law_keys_order_numbers(b.max[axis], x);
    let a0 = choose|k: int| 0 <= k < points.len() && (#[trigger] points[k])[0] == b.min[0];
    let a1 = choose|k: int| 0 <= k < points.len() && (#[trigger] points[k])[1] == b.min[1];
    let a2 = choose|k: int| 0 <= k < points.len() && (#[trigger] points[k])[2] == b.min[2];
    assert(is_finite_point(points[a0]) && is_finite_point(points[a1]) && is_finite_point(
        points[a2],
    ));
}

proof fn lemma_box(points: Seq<[u32; 3]>, axis: int)
    requires
        points.len() > 0,
        forall|k: int| 0 <= k < points.len() ==> is_finite_point(#[trigger] points[k]),
        0 <= axis < 3,
    ensures
        forall|k: int|
            0 <= k < points.len() ==> {
                &&& crate::bits::key_of(box_of(points).min[axis]) <= crate::bits::key_of(
                    (#[trigger] points[k])[axis],
                )
                &&& crate::bits::key_of(points[k][axis]) <= crate::bits::key_of(
                    box_of(points).max[axis],
                )
            },
        is_reached(box_of(points).min[axis], points, axis),
        is_reached(box_of(points).max[axis], points, axis),
    decreases points.len(),
{
    let rest = points.drop_last();
    let last = points.last();
    let n = points.len() - 1;
    assert(points[n] == last);
    assert(is_finite_point(points[n]));
    let b = box_of(points);
    let was = box_of(rest);
    assert(axis == 0 || axis == 1 || axis == 2);
    assert(b.min[axis] == crate::bits::lower_of(was.min[axis], last[axis]));
    assert(b.max[axis] == crate::bits::upper_of(was.max[axis], last[axis]));
    if n == 0 {
        assert(was == nothing());
        assert(was.min[axis] == LARGEST && was.max[axis] == LOWEST);
        assert(b.min[axis] == last[axis]);
        assert(b.max[axis] == last[axis]);
        assert(points[0][axis] == b.min[axis]);
    } else {
        assert forall|k: int| 0 <= k < rest.len() implies is_finite_point(#[trigger] rest[k]) by {
            assert(rest[k] == points[k]);
        }
        lemma_box(rest, axis);
        let lo = choose|k: int|
            0 <= k < rest.len() && (#[trigger] rest[k])[axis] == was.min[axis];
        let hi = choose|k: int|
            0 <= k < rest.len() && (#[trigger] rest[k])[axis] == was.max[axis];
        assert(points[lo] == rest[lo] && points[hi] == rest[hi]);
        assert(is_finite_point(points[lo]) && is_finite_point(points[hi]));
        assert forall|k: int| 0 <= k < points.len() implies crate::bits::key_of(b.min[axis])
            <= crate::bits::key_of((#[trigger] points[k])[axis]) && crate::bits::key_of(
            points[k][axis],
        ) <= crate::bits::key_of(b.max[axis]) by {
            if k < n {
                assert(points[k] == rest[k]);
            }
        }
    }
}

/// A mesh without points takes up the unit box.
pub proof fn law_no_points_make_the_unit_box(points: Seq<[u32; 3]>)
    requires
        !is_finite_point(box_of(points).min),
    ensures
        world_box(points).min == [0u32, 0, 0],
        world_box(points).max == [0x3f80_0000u32, 0x3f80_0000, 0x3f80_0000],
{
}

/// A box that is made to hold another one holds both, along every axis.
pub proof fn law_joined_boxes_hold_both(a: Bounds, b: Bounds, axis: int)
    requires
        0 <= axis < 3,
        crate::bits::is_ordered(a.min[axis]) && crate::bits::is_ordered(a.max[axis]),
        crate::bits::is_ordered(b.min[axis]) && crate::bits::is_ordered(b.max[axis]),
    ensures
        ({
            let c = joined(a, b);
            let lo = crate::bits::value(c.min[axis]);
            let hi = crate::bits::value(c.max[axis]);
            &&& lo <= crate::bits::value(a.min[axis]) && lo <= crate::bits::value(b.min[axis])
            &&& hi >= crate::bits::value(a.max[axis]) && hi >= crate::bits::value(b.max[axis])
            &&& c.min[axis] == a.min[axis] || c.min[axis] == b.min[axis]
            &&& c.max[axis] == a.max[axis] || c.max[axis] == b.max[axis]
        }),
{
    assert(axis == 0 || axis == 1 || axis == 2);
    crate::bits::law_larger_and_smaller(a.min[axis], b.min[axis]);
    crate::bits::law_larger_and_smaller(a.max[axis], b.max[axis]);
}

/// The nodes that count are those of a list that show a mesh, and no others.
pub proof fn law_only_shown_nodes_count(scene: Scene, nodes: Seq<Handle>, h: Handle)
    ensures
        showing(scene, nodes).contains(h) <==> nodes.contains(h) && scene.shown(h) is Some,
    decreases nodes.len(),
{
    if nodes.len() > 0 {
        let rest = nodes.drop_last();
        let last = nodes.last();
        law_only_shown_nodes_count(scene, rest, h);
        let s = showing(scene, rest);
        assert(nodes =~= rest.push(last));
        lemma_pushed(rest, last, h);
        lemma_pushed(s, last, h);
    }
}

proof fn lemma_pushed(s: Seq<Handle>, x: Handle, h: Handle)
    ensures
        s.push(x).contains(h) <==> s.contains(h) || x == h,
{
    let t = s.push(x);
    if s.contains(h) {
        let k = choose|k: int| 0 <= k < s.len() && s[k] == h;
        assert(t[k] == h);
    }
    assert(t[s.len() as int] == x);
    if t.contains(h) {
        let k = choose|k: int| 0 <= k < t.len() && t[k] == h;
        if k < s.len() {
            assert(s[k] == h);
        }
    }
}

} // verus!
