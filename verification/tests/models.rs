//! Which model is shown.

use model_painter::bvh::BoxMath;
use model_painter::mesh::Mesh;
use model_painter::painter::Painter;
use model_painter::scene::{Handle, MeshInfo, Node};
use model_painter::start::Parts;

fn handle(index: u32) -> Handle {
    Handle { index, generation: 1 }
}

/// Box arithmetic in single precision.
struct Single;

impl BoxMath for Single {
    fn centroid(&self, tri: [[u32; 3]; 3]) -> [u32; 3] {
        let at = |k: usize| {
            let sum: f32 = tri.iter().map(|c| f32::from_bits(c[k])).sum();
            (sum / 3.0).to_bits()
        };
        [at(0), at(1), at(2)]
    }

    fn minus(&self, a: u32, b: u32) -> u32 {
        (f32::from_bits(a) - f32::from_bits(b)).to_bits()
    }

    fn midpoint(&self, a: u32, b: u32) -> u32 {
        ((f32::from_bits(a) + f32::from_bits(b)) * 0.5).to_bits()
    }
}

fn no_mesh(_: Handle) -> Option<Mesh> {
    None
}

fn parts() -> Parts {
    let mesh = |index: u32, tris: usize| MeshInfo { handle: handle(index), index_count: 3 * tris, version: 1 };
    Parts {
        root: handle(1),
        ground_node: handle(2),
        sphere_node: handle(3),
        cube_node: handle(4),
        sphere: mesh(11, 4),
        cube: mesh(12, 12),
        ground: mesh(13, 2),
        paint_mat: handle(21),
        ground_mat: handle(22),
        albedo_tex: handle(31),
        mr_tex: handle(32),
        nrm_tex: handle(33),
        layer_tex: [handle(41), handle(42), handle(43), handle(44)],
    }
}

fn painter() -> Painter {
    Painter::new(&parts(), &Single, no_mesh)
}

fn with_model() -> Painter {
    let mut p = painter();
    let node = |i: u32, parent: u32, mesh: Option<u32>, material: Option<u32>| Node {
        handle: handle(i),
        parent: Some(handle(parent)),
        mesh: mesh.map(handle),
        material: material.map(handle),
        visible: true,
    };
    p.scene.nodes.push(node(80, 1, None, None));
    p.scene.nodes.push(node(81, 80, Some(90), Some(95)));
    p.scene.nodes.push(node(82, 80, Some(91), None));
    p.scene.meshes.push(MeshInfo { handle: handle(90), index_count: 30, version: 1 });
    p.scene.meshes.push(MeshInfo { handle: handle(91), index_count: 180_000, version: 1 });
    p
}

#[test]
fn shapes_are_shown_one_at_a_time() {
    let mut p = painter();
    p.set_shape(1, &Single, no_mesh);
    assert_eq!(p.shape, 1);
    assert_eq!(p.paintable, vec![handle(4)]);
    let visible: Vec<bool> = p.scene.nodes.iter().map(|n| n.visible).collect();
    assert_eq!(visible, vec![true, true, false, true]);
    assert_eq!(p.segmentation.leftover_faces(), 12);
    assert_eq!(p.total_tris(), 12);
    // Without a model nothing can be painted.
    p.set_shape(2, &Single, no_mesh);
    assert_eq!(p.paintable, vec![]);
}

#[test]
fn a_model_is_taken_in() {
    let mut p = with_model();
    let intake = p.adopt_model(handle(80), (100..104).map(handle).collect());
    assert_eq!(intake.nodes, vec![handle(82), handle(81)]);
    assert_eq!(intake.materials, vec![handle(95)]);
    assert_eq!(intake.freed, vec![handle(41), handle(42), handle(43), handle(44)]);
    assert_eq!(p.model_root, Some(handle(80)));
    assert_eq!(p.scene.nodes[6].material, Some(p.paint_mat));
    assert_eq!(p.scene.nodes[5].material, Some(handle(95)));
    assert_eq!(p.docs[3].layers[0].tex, Some(handle(103)));
    p.set_shape(2, &Single, no_mesh);
    assert_eq!(p.paintable, vec![handle(82), handle(81)]);
    assert!(!p.scene.nodes[2].visible);
    p.report_trees("12.5");
    assert_eq!(p.status, "BVH ready · 60010 tris · 12.5 ms");
    p.note_loaded("head".to_string());
    assert_eq!(p.model_name, "head");
    assert_eq!(p.status, "Loaded head · BVH ready · 60010 tris · 12.5 ms");
    let gone = p.drop_model();
    assert_eq!(gone.len(), 3);
    assert_eq!(p.model_root, None);
    assert_eq!(p.scene.nodes.len(), 4);
}

#[test]
fn few_triangles_are_not_reported() {
    let mut p = painter();
    p.report_trees("1.0");
    assert_eq!(p.status, "Ready · GPU brush");
    p.note_loaded("cup".to_string());
    assert_eq!(p.status, "Loaded cup");
    p.note_load_failed("no such file");
    assert_eq!(p.status, "Load failed: no such file");
}

#[test]
fn the_unwrap_is_planned_mesh_by_mesh() {
    let mut p = painter();
    p.segmentation.set_face(handle(11), 1, 1);
    let plan = p.plan_unwrap();
    assert_eq!(plan.len(), 1);
    assert_eq!(plan[0].0, handle(11));
    assert_eq!(plan[0].1.len(), 4);
    assert_eq!(plan[0].1[0], plan[0].1[2]);
    assert_ne!(plan[0].1[0], plan[0].1[1]);
    assert_eq!(p.bind_targets(), vec![handle(21)]);
}
