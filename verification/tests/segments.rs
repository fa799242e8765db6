//! Segments and the labels of faces.

use model_painter::scene::{Handle, MeshInfo, Node, Scene};
use model_painter::segment::{AppMode, SegOp, SegTool, Segmentation, UNASSIGNED};

fn handle(index: u32) -> Handle {
    Handle { index, generation: 1 }
}

/// A scene of one node that shows a mesh of some triangles.
fn scene_of(tris: usize) -> (Scene, Handle, Handle) {
    let mesh = handle(0);
    let node = handle(10);
    let scene = Scene {
        nodes: vec![Node { handle: node, parent: None, mesh: Some(mesh), material: None, visible: true }],
        meshes: vec![MeshInfo { handle: mesh, index_count: 3 * tris, version: 1 }],
    };
    (scene, mesh, node)
}

#[test]
fn steal_and_delete() {
    let (scene, mh, node) = scene_of(2);
    let mut seg = Segmentation::default();
    let a = seg.active.unwrap();
    seg.sync(&scene, &vec![node]);
    seg.set_face(mh, 0, a);
    assert_eq!(seg.face_count(a), 1);

    let b = seg.add_segment();
    seg.set_face(mh, 0, b);
    assert_eq!(seg.face_count(a), 0);
    assert_eq!(seg.face_count(b), 1);

    seg.active = Some(b);
    seg.remove_active();
    assert_eq!(seg.face_count(b), 0);
    assert!(seg.segments.iter().all(|s| s.id != b));
}

#[test]
fn a_segment_starts_alone_and_active() {
    let seg = Segmentation::default();
    assert_eq!(seg.segments.len(), 1);
    assert_eq!(seg.segments[0].id, 1);
    assert_eq!(seg.segments[0].name, "Segment 1");
    assert_eq!(seg.active, Some(1));
    assert_eq!(seg.color_of(1), Some(seg.segments[0].color));
    assert_eq!(seg.color_of(2), None);
}

#[test]
fn labels_are_read_back() {
    let (scene, mh, node) = scene_of(3);
    let mut seg = Segmentation::default();
    seg.sync(&scene, &vec![node]);
    assert_eq!(seg.label_of(mh, 1), UNASSIGNED);
    seg.set_face(mh, 1, 1);
    assert_eq!(seg.label_of(mh, 1), 1);
    assert_eq!(seg.label_of(mh, 0), UNASSIGNED);
    // A triangle or a mesh that does not exist takes no label.
    seg.set_face(mh, 3, 1);
    seg.set_face(handle(99), 0, 1);
    assert_eq!(seg.label_of(mh, 3), UNASSIGNED);
    assert_eq!(seg.face_count(1), 1);
    assert_eq!(seg.leftover_faces(), 2);
}

#[test]
fn faces_may_come_in_any_order() {
    let (scene, mh, node) = scene_of(4);
    let mut one = Segmentation::default();
    let mut two = Segmentation::default();
    one.sync(&scene, &vec![node]);
    two.sync(&scene, &vec![node]);
    one.set_faces(&vec![(mh, 0), (mh, 2), (mh, 3)], 1);
    two.set_faces(&vec![(mh, 3), (mh, 0), (mh, 2), (mh, 0)], 1);
    for t in 0..4 {
        assert_eq!(one.label_of(mh, t), two.label_of(mh, t));
    }
    assert_eq!(one.face_count(1), 3);
    assert_eq!(two.face_count(1), 3);
}

#[test]
fn deselecting_gives_a_face_back() {
    let (scene, mh, node) = scene_of(2);
    let mut seg = Segmentation::default();
    seg.sync(&scene, &vec![node]);
    seg.set_face(mh, 0, 1);
    seg.set_face(mh, 0, UNASSIGNED);
    assert_eq!(seg.label_of(mh, 0), UNASSIGNED);
    assert_eq!(seg.face_count(1), 0);
    assert_eq!(seg.leftover_faces(), 2);
}

#[test]
fn deleting_touches_no_other_segment() {
    let (scene, mh, node) = scene_of(3);
    let mut seg = Segmentation::default();
    seg.sync(&scene, &vec![node]);
    let b = seg.add_segment();
    seg.set_face(mh, 0, 1);
    seg.set_face(mh, 1, b);
    seg.set_face(mh, 2, b);
    assert_eq!(seg.active, Some(b));
    seg.remove_active();
    assert_eq!(seg.label_of(mh, 0), 1);
    assert_eq!(seg.label_of(mh, 1), UNASSIGNED);
    assert_eq!(seg.leftover_faces(), 2);
    assert_eq!(seg.segments.len(), 1);
    // Ids are not given out again.
    assert_eq!(seg.add_segment(), b + 1);
}

#[test]
fn synchronising_twice_changes_nothing() {
    let (scene, mh, node) = scene_of(3);
    let mut seg = Segmentation::default();
    seg.sync(&scene, &vec![node]);
    seg.set_face(mh, 2, 1);
    seg.sync(&scene, &vec![node]);
    assert_eq!(seg.label_of(mh, 2), 1);
    assert_eq!(seg.face_count(1), 1);
    // Another number of triangles starts the mesh anew or cuts it off.
    let (smaller, _, _) = scene_of(2);
    seg.sync(&smaller, &vec![node]);
    assert_eq!(seg.label_of(mh, 2), UNASSIGNED);
    assert_eq!(seg.face_count(1), 0);
    // A mesh that is gone has no labels.
    seg.sync(&Scene { nodes: vec![], meshes: vec![] }, &vec![node]);
    assert_eq!(seg.leftover_faces(), 0);
}

#[test]
fn marked_faces_have_the_colours_of_their_segments() {
    let (scene, mh, node) = scene_of(3);
    let mut seg = Segmentation::default();
    seg.sync(&scene, &vec![node]);
    let b = seg.add_segment();
    seg.set_face(mh, 0, 1);
    seg.set_face(mh, 2, b);
    let mut faces = seg.overlay_faces();
    faces.sort_by_key(|f| f.1);
    assert_eq!(faces.len(), 2);
    assert_eq!((faces[0].0, faces[0].1), (mh, 0));
    assert_eq!(Some(faces[0].2), seg.color_of(1));
    assert_eq!((faces[1].0, faces[1].1), (mh, 2));
    assert_eq!(Some(faces[1].2), seg.color_of(b));
}

#[test]
fn names_on_the_switches() {
    assert_eq!(AppMode::ALL.map(|m| m.label()), ["Paint", "Segment"]);
    assert_eq!(SegTool::ALL.map(|t| t.label()), ["Click", "Brush", "Rect"]);
    assert_eq!(SegOp::ALL.map(|o| o.label()), ["Select", "Deselect"]);
}

#[test]
fn deleting_gives_the_faces_to_the_leftovers() {
    let (scene, mh, node) = scene_of(10);
    let mut seg = Segmentation::default();
    seg.sync(&scene, &vec![node]);
    seg.set_faces(&vec![(mh, 0), (mh, 1), (mh, 2)], 1);
    let b = seg.add_segment();
    seg.set_faces(&vec![(mh, 2), (mh, 3)], b);
    // Leftovers and segments together are all triangles.
    assert_eq!((seg.leftover_faces(), seg.face_count(1), seg.face_count(b)), (6, 2, 2));
    seg.remove_active();
    assert_eq!((seg.leftover_faces(), seg.face_count(1), seg.face_count(b)), (8, 2, 0));
}

#[test]
fn a_mesh_that_two_nodes_show_counts_once() {
    let (mut scene, mh, node) = scene_of(4);
    let twin = handle(11);
    scene.nodes.push(Node { handle: twin, parent: None, mesh: Some(mh), material: None, visible: true });
    let mut seg = Segmentation::default();
    seg.sync(&scene, &vec![node, twin]);
    seg.set_face(mh, 3, 1);
    assert_eq!(seg.leftover_faces() + seg.face_count(1), 4);
}

#[test]
fn ids_are_not_given_out_twice() {
    let mut seg = Segmentation::default();
    let a = seg.add_segment();
    seg.remove_active();
    let b = seg.add_segment();
    assert_eq!((a, b), (2, 3));
    let mut last = b;
    while last < 65534 {
        let id = seg.add_segment();
        assert_eq!(id, last + 1);
        last = id;
    }
    assert!(seg.segments.iter().all(|s| s.id < 65535));
    assert_eq!(seg.add_segment(), 65535);
    // There are no more ids.
    assert_eq!(seg.add_segment(), 65535);
}
