//! Trees over triangles, rays, and the space that nodes take up.

use std::collections::HashMap;

use glam::Vec3;
use model_painter::bits::{ONE, ZERO};
use model_painter::bounds::{bounds_of_nodes, mesh_world_aabb};
use model_painter::bvh::{Bounds, BoxMath, BoxTest, MeshBvh, RayProbe, TriHit};
use model_painter::mesh::Mesh;
use model_painter::pick::{
    collect_faces, ensure_bvhs, faces_in_rect, faces_in_sphere, find_viewport_rect, pick_mesh, ray_mesh, try_all,
    DrawItem, Hit, LocalSphere,
};
use model_painter::scene::{Handle, MeshInfo, Node, Scene};

fn handle(index: u32) -> Handle {
    Handle { index, generation: 1 }
}

fn bits(x: f32) -> u32 {
    x.to_bits()
}

fn vec3(p: [u32; 3]) -> Vec3 {
    Vec3::from_array(p.map(f32::from_bits))
}

fn point(v: Vec3) -> [u32; 3] {
    v.to_array().map(f32::to_bits)
}

struct Single;

impl BoxMath for Single {
    fn centroid(&self, tri: [[u32; 3]; 3]) -> [u32; 3] {
        point((vec3(tri[0]) + vec3(tri[1]) + vec3(tri[2])) / 3.0)
    }

    fn minus(&self, a: u32, b: u32) -> u32 {
        bits(f32::from_bits(a) - f32::from_bits(b))
    }

    fn midpoint(&self, a: u32, b: u32) -> u32 {
        bits((f32::from_bits(a) + f32::from_bits(b)) * 0.5)
    }
}

/// A ray from a point in a direction.
struct Ray {
    from: Vec3,
    dir: Vec3,
}

impl Ray {
    fn slab(&self, b: Bounds) -> (f32, f32) {
        let (min, max) = (vec3(b.min), vec3(b.max));
        let inv = self.dir.recip();
        let t0 = (min - self.from) * inv;
        let t1 = (max - self.from) * inv;
        (t0.min(t1).max_element(), t0.max(t1).min_element())
    }
}

impl RayProbe for Ray {
    fn enters(&self, b: Bounds, limit: u32) -> bool {
        let (near, far) = self.slab(b);
        far >= near.max(0.0) && near < f32::from_bits(limit)
    }

    fn entry(&self, b: Bounds) -> u32 {
        bits(self.slab(b).0.max(0.0))
    }

    fn meets(&self, tri: [[u32; 3]; 3]) -> Option<TriHit> {
        let (a, b, c) = (vec3(tri[0]), vec3(tri[1]), vec3(tri[2]));
        let (e1, e2) = (b - a, c - a);
        let p = self.dir.cross(e2);
        let det = e1.dot(p);
        if det.abs() < 1e-9 {
            return None;
        }
        let s = self.from - a;
        let u = s.dot(p) / det;
        let q = s.cross(e1);
        let v = self.dir.dot(q) / det;
        let t = e2.dot(q) / det;
        if u < 0.0 || v < 0.0 || u + v > 1.0 || t <= 0.0 {
            return None;
        }
        Some(TriHit { t: bits(t), u: bits(u), v: bits(v) })
    }
}

/// A sphere in the space of a mesh.
#[derive(Clone, Copy)]
struct Sphere {
    center: Vec3,
    radius: f32,
}

impl BoxTest for Sphere {
    fn touches(&self, b: Bounds) -> bool {
        let near = self.center.clamp(vec3(b.min), vec3(b.max));
        near.distance_squared(self.center) <= self.radius * self.radius
    }
}

/// A row of upright triangles at x = 0, 1, 2, ...
fn fence(n: usize) -> Mesh {
    let mut positions = Vec::new();
    for i in 0..n {
        let x = i as f32;
        positions.push(point(Vec3::new(x, 0.0, 0.0)));
        positions.push(point(Vec3::new(x + 0.8, 0.0, 0.0)));
        positions.push(point(Vec3::new(x + 0.4, 1.0, 0.0)));
    }
    Mesh {
        positions,
        normals: vec![],
        tangents: vec![],
        uvs: vec![vec![[1, 2]]],
        colors: vec![],
        joints: vec![],
        weights: vec![],
        indices: (0..3 * n as u32).collect(),
        basis_positions: vec![],
        basis_normals: vec![],
        morph_targets: vec![],
    }
}

fn at(x: f32) -> Ray {
    Ray { from: Vec3::new(x, 0.3, 5.0), dir: Vec3::new(0.0, 0.0, -1.0) }
}

#[test]
fn a_tree_holds_every_triangle_once() {
    let mesh = fence(40);
    let tree = MeshBvh::build(&Single, &mesh);
    let mut all = tree.tri_indices.clone();
    all.sort();
    assert_eq!(all, (0..40).collect::<Vec<u32>>());
    assert!(tree.nodes.len() > 1);
    assert_eq!(tree.nodes[0].bounds.min[0], bits(0.0));
    assert_eq!(tree.nodes[0].bounds.max[0], bits(39.8));
}

#[test]
fn a_tree_changes_no_hit() {
    let mesh = fence(40);
    let tree = MeshBvh::build(&Single, &mesh);
    for i in 0..400 {
        let ray = at(i as f32 * 0.1);
        assert_eq!(tree.raycast(&mesh, &ray), try_all(&mesh, &ray));
    }
    let hit = tree.raycast(&mesh, &at(7.4)).unwrap();
    assert_eq!(hit.tri, 7);
    assert_eq!(hit.at.t, bits(5.0));
    assert!(tree.raycast(&mesh, &at(7.9)).is_none());
}

#[test]
fn an_empty_mesh_is_never_hit() {
    let mesh = fence(0);
    let tree = MeshBvh::build(&Single, &mesh);
    assert!(tree.raycast(&mesh, &at(0.4)).is_none());
    assert!(ray_mesh(&mesh, Some(&tree), &at(0.4)).is_none());
    assert!(ray_mesh(&mesh, None, &at(0.4)).is_none());
}

#[test]
fn a_hit_reads_the_corners() {
    let mesh = fence(3);
    let hit = ray_mesh(&mesh, None, &at(0.4)).unwrap();
    assert_eq!(hit.hit.tri, 0);
    assert_eq!(hit.corners[0], mesh.positions[0]);
    assert_eq!(hit.uvs, [[1, 2], [ZERO, ZERO], [ZERO, ZERO]]);
    assert_eq!(hit.normals, [[ZERO, ONE, ZERO]; 3]);
    let tree = MeshBvh::build(&Single, &mesh);
    assert_eq!(ray_mesh(&mesh, Some(&tree), &at(0.4)).unwrap().hit, hit.hit);
}

#[test]
fn a_sphere_gathers_all_that_it_touches() {
    let mesh = fence(40);
    let tree = MeshBvh::build(&Single, &mesh);
    let mut found = Vec::new();
    let sphere = Sphere { center: Vec3::new(10.4, 0.5, 0.0), radius: 1.0 };
    tree.gather_sphere(bits(1.0), &sphere, &mut found);
    found.sort();
    assert_eq!(found, [9, 10, 11]);
    let mut none = Vec::new();
    tree.gather_sphere(bits(0.0), &sphere, &mut none);
    assert_eq!(none, Vec::<u32>::new());
}

#[test]
fn a_sphere_leaves_out_what_it_misses_in_a_leaf() {
    // Three triangles share one leaf; the sphere meets the box of the middle one only.
    let mesh = fence(3);
    let tree = MeshBvh::build(&Single, &mesh);
    assert_eq!(tree.nodes.len(), 1);
    let sphere = Sphere { center: Vec3::new(1.4, 0.5, 0.0), radius: 0.3 };
    let mut found = Vec::new();
    tree.gather_sphere(bits(0.3), &sphere, &mut found);
    assert_eq!(found, [1]);
    // The gap between two triangles is in the box of the leaf, but in none of theirs.
    let gap = Sphere { center: Vec3::new(0.9, 0.5, 0.0), radius: 0.05 };
    found.clear();
    tree.gather_sphere(bits(0.05), &gap, &mut found);
    assert_eq!(found, Vec::<u32>::new());
}

fn scene() -> (Scene, Vec<Handle>) {
    let node = |i: u32, mesh: u32, visible: bool| Node {
        handle: handle(i),
        parent: None,
        mesh: Some(handle(mesh)),
        material: None,
        visible,
    };
    let scene = Scene {
        nodes: vec![node(1, 11, true), node(2, 12, false), node(3, 11, true), node(4, 77, true)],
        meshes: vec![
            MeshInfo { handle: handle(11), index_count: 9, version: 1 },
            MeshInfo { handle: handle(12), index_count: 9, version: 1 },
        ],
    };
    let nodes = vec![handle(1), handle(2), handle(3), handle(4), handle(9)];
    (scene, nodes)
}

fn hit(node: Handle, t: f32) -> Hit {
    Hit {
        node,
        mesh: handle(11),
        tri_index: 0,
        t: bits(t),
        position: [0; 3],
        normal: [0; 3],
        uv: [0; 2],
        tri_world: [[0; 3]; 3],
        tri_uv: [[0; 2]; 3],
    }
}

#[test]
fn the_nearest_node_is_picked() {
    let (scene, nodes) = scene();
    let cast = |node: Handle, _: Handle| {
        Some(hit(node, match node.index {
            1 => 5.0,
            2 => 1.0,
            _ => 3.0,
        }))
    };
    // The second node is hidden, so the third one is the nearest.
    assert_eq!(pick_mesh(&scene, &nodes, cast).unwrap().node, handle(3));
    assert!(pick_mesh(&scene, &nodes, |_, _| None).is_none());
}

#[test]
fn the_first_of_equally_near_nodes_is_picked() {
    let (scene, nodes) = scene();
    assert_eq!(pick_mesh(&scene, &nodes, |node, _| Some(hit(node, 3.0))).unwrap().node, handle(1));
    let turned: Vec<Handle> = nodes.into_iter().rev().collect();
    assert_eq!(pick_mesh(&scene, &turned, |node, _| Some(hit(node, 3.0))).unwrap().node, handle(3));
}

#[test]
fn trees_are_kept_for_the_nodes_in_use() {
    let (scene, nodes) = scene();
    let fetch = |h: Handle| if h.index == 77 { None } else { Some(fence(3)) };
    let mut cache: HashMap<u64, MeshBvh> = HashMap::new();
    cache.insert(handle(50).packed(), MeshBvh::build(&Single, &fence(1)));
    ensure_bvhs(&Single, fetch, &scene, &nodes, &mut cache);
    assert!(cache.contains_key(&handle(11).packed()));
    assert!(!cache.contains_key(&handle(50).packed()));
    assert!(!cache.contains_key(&handle(77).packed()));
    // A second update finds nothing to do.
    let held = |c: &HashMap<u64, MeshBvh>| {
        let mut list: Vec<(u64, Vec<u32>, usize)> =
            c.iter().map(|(k, t)| (*k, t.tri_indices.clone(), t.nodes.len())).collect();
        list.sort();
        list
    };
    let before = held(&cache);
    ensure_bvhs(&Single, fetch, &scene, &nodes, &mut cache);
    assert_eq!(held(&cache), before);
}

#[test]
fn faces_of_the_drawn_nodes() {
    let (scene, nodes) = scene();
    let all = collect_faces(&scene, &nodes, false, |_, _| false, |_, t| t != 1);
    assert_eq!(all, vec![(handle(11), 0), (handle(11), 2), (handle(11), 0), (handle(11), 2)]);
}

#[test]
fn faces_in_a_rectangle() {
    let (scene, nodes) = scene();
    let at = |x: f32, y: f32| [bits(x), bits(y)];
    // The faces stand next to each other, at 10, 20 and 30; the last one cannot be seen.
    let project = |_: Handle, t: u32| if t == 2 { None } else { Some(at(10.0 + 10.0 * t as f32, 5.0)) };
    let faces = |through: bool, a: [u32; 2], b: [u32; 2]| {
        faces_in_rect(&scene, &nodes, through, a, b, |n: Handle, _: u32| n == handle(1), project)
    };
    // From the front only what faces the viewer counts; through the model everything does.
    let front = faces(false, at(0.0, 0.0), at(40.0, 10.0));
    let all = faces(true, at(0.0, 0.0), at(40.0, 10.0));
    assert_eq!(front, [(handle(11), 0), (handle(11), 1)]);
    assert_eq!(all, [(handle(11), 0), (handle(11), 1), (handle(11), 0), (handle(11), 1)]);
    // The two corners may come in either order, and the sides belong to the rectangle.
    assert_eq!(faces(true, at(15.0, 10.0), at(10.0, 5.0)), [(handle(11), 0), (handle(11), 0)]);
    assert_eq!(faces(true, at(10.0, 10.0), at(15.0, 5.0)), [(handle(11), 0), (handle(11), 0)]);
    assert_eq!(faces(true, at(10.0, 5.5), at(15.0, 9.0)), []);
}

#[test]
fn faces_in_a_sphere() {
    let (scene, nodes) = scene();
    let sphere = Sphere { center: Vec3::new(0.4, 0.5, 0.0), radius: 0.3 };
    let local = |_: Handle| LocalSphere { radius: bits(0.3), test: sphere };
    let mut cache: HashMap<u64, MeshBvh> = HashMap::new();
    let without = faces_in_sphere(&scene, &nodes, &cache, local, |_, t| t == 0);
    assert_eq!(without, vec![(handle(11), 0), (handle(11), 0)]);
    cache.insert(handle(11).packed(), MeshBvh::build(&Single, &fence(3)));
    let with = faces_in_sphere(&scene, &nodes, &cache, local, |_, t| t == 0);
    assert_eq!(with, without);
}

#[test]
fn the_viewport_is_the_last_picture_of_the_scene() {
    let item = |picture: bool, tex: u32, x: u32| DrawItem { picture, tex, rect: [x, 0, 0, 0] };
    let items = vec![item(true, 0, 1), item(true, 0, 2), item(false, 0, 3), item(true, 1, 4)];
    assert_eq!(find_viewport_rect(&items, 0), Some([2, 0, 0, 0]));
    assert_eq!(find_viewport_rect(&items, 1), Some([4, 0, 0, 0]));
    assert_eq!(find_viewport_rect(&items, 2), None);
}

#[test]
fn boxes_of_meshes_and_nodes() {
    let mesh = fence(2);
    let b = mesh_world_aabb(&mesh, &|p: [u32; 3]| point(vec3(p) + Vec3::Y));
    assert_eq!(vec3(b.min), Vec3::new(0.0, 1.0, 0.0));
    assert_eq!(vec3(b.max), Vec3::new(1.8, 2.0, 0.0));
    // Points that are no numbers make the unit box.
    let b = mesh_world_aabb(&mesh, &|_: [u32; 3]| point(Vec3::splat(f32::NEG_INFINITY)));
    assert_eq!(vec3(b.min), Vec3::ZERO);
    assert_eq!(vec3(b.max), Vec3::ONE);
    let (scene, nodes) = scene();
    let place = |h: Handle| {
        let x = h.index as f32;
        Bounds { min: point(Vec3::splat(x)), max: point(Vec3::splat(x + 1.0)) }
    };
    // Hidden nodes count, those without a mesh do not.
    let b = bounds_of_nodes(&scene, &nodes, &place).unwrap();
    assert_eq!(vec3(b.min), Vec3::splat(1.0));
    assert_eq!(vec3(b.max), Vec3::splat(4.0));
    assert!(bounds_of_nodes(&scene, &vec![handle(4)], &place).is_none());
}
