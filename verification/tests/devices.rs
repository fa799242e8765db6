//! What goes to the device, and the view of the texture plane.

use std::collections::HashMap;

use model_painter::bits::{Rgba, ONE, ZERO};
use model_painter::device::{
    clamp, draws, ensure_size, grow_slots, grow_zeros, next_power_of_two, plan_upload, slot_offset,
    stack_blob, stack_block, stamp_block, sync_meshes, to_memory, vertex_words, workgroups, Upload,
};
use model_painter::frame::{StackLayer, TilePass};
use model_painter::mesh::Mesh;
use model_painter::paint::{Brush, LayerKind, PaintMap};
use model_painter::painter::UvView;
use model_painter::preview::{
    preview_channel, preview_tiles, sync_wires, tile_borders, tile_quad, tile_span, uv_wires, Corner,
    TileSpan,
};
use model_painter::scene::{Handle, MeshInfo, Node, Scene};

fn handle(index: u32) -> Handle {
    Handle { index, generation: 1 }
}

fn bits(x: f32) -> u32 {
    x.to_bits()
}

fn empty_mesh() -> Mesh {
    Mesh {
        positions: vec![],
        normals: vec![],
        tangents: vec![],
        uvs: vec![],
        colors: vec![],
        joints: vec![],
        weights: vec![],
        indices: vec![],
        basis_positions: vec![],
        basis_normals: vec![],
        morph_targets: vec![],
    }
}

#[test]
fn targets_are_made_when_their_size_changes() {
    let mut size = (0, 0);
    assert!(ensure_size(&mut size, false, 0, 5));
    assert_eq!(size, (1, 5));
    assert!(!ensure_size(&mut size, true, 0, 5));
    assert!(ensure_size(&mut size, false, 1, 5));
    assert!(ensure_size(&mut size, true, 2, 5));
    assert_eq!(size, (2, 5));
}

#[test]
fn uploads_need_enough_bytes() {
    assert_eq!(plan_upload(31, 2, 4), None);
    assert_eq!(
        plan_upload(40, 2, 4),
        Some(Upload { width: 2, height: 4, bytes: 32, row_bytes: 8 })
    );
    assert_eq!(plan_upload(3, 0, 0), None);
    assert_eq!(
        plan_upload(4, 0, 0),
        Some(Upload { width: 1, height: 1, bytes: 4, row_bytes: 4 })
    );
}

#[test]
fn zeros_only_grow() {
    let mut zeros = vec![0u8; 3];
    grow_zeros(&mut zeros, 5);
    assert_eq!(zeros, vec![0; 5]);
    grow_zeros(&mut zeros, 2);
    assert_eq!(zeros.len(), 5);
}

#[test]
fn groups_cover_every_texel() {
    assert_eq!(workgroups(0), 0);
    assert_eq!(workgroups(1), 1);
    assert_eq!(workgroups(8), 1);
    assert_eq!(workgroups(9), 2);
    assert_eq!(workgroups(u32::MAX), 0x2000_0000);
}

#[test]
fn slots_grow_by_powers_of_two() {
    for n in [0u32, 1, 2, 3, 4, 5, 8, 9, 1000, 0x4000_0001, 0x8000_0000] {
        assert_eq!(next_power_of_two(n), n.next_power_of_two());
    }
    assert_eq!(grow_slots(8, 0), None);
    assert_eq!(grow_slots(8, 8), None);
    assert_eq!(grow_slots(8, 9), Some(16));
    assert_eq!(grow_slots(0, 3), Some(8));
}

#[test]
fn numbers_are_kept_in_range() {
    assert_eq!(clamp(bits(-0.5), ZERO, ONE), ZERO);
    assert_eq!(clamp(bits(1.5), ZERO, ONE), ONE);
    assert_eq!(clamp(bits(0.25), ZERO, ONE), bits(0.25));
    assert!(f32::from_bits(clamp(bits(f32::NAN), ZERO, ONE)).is_nan());
}

#[test]
fn words_lie_in_memory_as_the_machine_has_them() {
    let words = vec![0x0102_0304u32, bits(1.5)];
    let mut expected = words[0].to_ne_bytes().to_vec();
    expected.extend(bits(1.5).to_ne_bytes());
    assert_eq!(to_memory(&words), expected);
    assert_eq!(to_memory(&vec![]), Vec::<u8>::new());
}

#[test]
fn the_block_of_a_stamp() {
    let brush = Brush { opacity: bits(2.0), hardness: bits(-1.0), ..Brush::default() };
    let all = Rgba::grey(ONE);
    let words = stamp_block([bits(3.0), bits(4.0)], bits(1.0), bits(0.0), &brush, all, true, (10, 20), (30, 40)).unwrap();
    assert_eq!(words.len(), 24);
    assert_eq!(words[0..8], [bits(3.0), bits(4.0), bits(2.0), bits(1e-4), ZERO, 0, 0, 0]);
    assert_eq!(words[8..12], [brush.color.r, brush.color.g, brush.color.b, brush.color.a]);
    assert_eq!(words[12..16], [ONE; 4]);
    assert_eq!(words[16..24], [ONE, ONE, 10, 20, 30, 40, 0, 0]);
    assert!(stamp_block([0, 0], 0, 0, &brush, all, false, (0, 20), (30, 40)).is_none());
    assert!(stamp_block([0, 0], 0, 0, &brush, all, false, (10, 20), (30, 0)).is_none());
}

fn pass() -> TilePass {
    TilePass {
        dst: handle(1),
        base: Rgba::new(bits(0.1), bits(0.2), bits(0.3), ONE),
        channels: Rgba::new(ZERO, ONE, ZERO, ZERO),
        normals: false,
        layers: vec![
            StackLayer {
                opacity: bits(0.5),
                kind: LayerKind::Paint,
                fill: Rgba::grey(ONE),
                content: Some(handle(2)),
                mask: None,
            },
            StackLayer {
                opacity: bits(3.0),
                kind: LayerKind::Fill,
                fill: Rgba::grey(bits(0.7)),
                content: None,
                mask: None,
            },
        ],
    }
}

#[test]
fn every_pass_has_a_slot_of_its_own() {
    let words = stack_block(&pass(), (64, 32));
    assert_eq!(words.len(), 3 * 64);
    let base = [bits(0.1), bits(0.2), bits(0.3), ONE];
    let mask = [ZERO, ONE, ZERO, ZERO];
    assert_eq!(words[0..4], base);
    assert_eq!(words[4..8], mask);
    assert_eq!(words[8..12], [ONE, 0, 64, 32]);
    assert!(words[12..64].iter().all(|w| *w == 0));
    assert_eq!(words[64..68], base);
    assert_eq!(words[72..76], [bits(0.5), 1, 64, 32]);
    assert_eq!(words[128..132], [bits(0.7), bits(0.7), bits(0.7), ONE]);
    assert_eq!(words[136..140], [ONE, 2, 64, 32]);
    let blob = stack_blob(&pass(), (64, 32));
    assert_eq!(blob, to_memory(&words));
    for slot in 0..3u32 {
        let at = slot_offset(slot) as usize;
        assert_eq!(at, 256 * slot as usize);
        let block: Vec<u32> = words[at / 4..at / 4 + 12].to_vec();
        assert_eq!(blob[at..at + 48], to_memory(&block)[..]);
    }
}

#[test]
fn vertices_without_normals_point_up() {
    let mesh = Mesh {
        positions: vec![[1, 2, 3], [4, 5, 6]],
        normals: vec![[7, 8, 9]],
        uvs: vec![vec![[10, 11]]],
        ..empty_mesh()
    };
    assert_eq!(
        vertex_words(&mesh),
        vec![1, 2, 3, 7, 8, 9, 10, 11, 4, 5, 6, ZERO, ONE, ZERO, ZERO, ZERO]
    );
}

fn node(index: u32, mesh: u32, visible: bool) -> Node {
    Node { handle: handle(index), parent: None, mesh: Some(handle(mesh)), material: None, visible }
}

#[test]
fn meshes_are_sent_once_per_version() {
    let mut scene = Scene {
        nodes: vec![node(1, 11, true), node(2, 11, true), node(3, 12, false), node(4, 13, true)],
        meshes: vec![
            MeshInfo { handle: handle(11), index_count: 3, version: 7 },
            MeshInfo { handle: handle(12), index_count: 3, version: 1 },
        ],
    };
    let nodes = vec![handle(1), handle(2), handle(3), handle(4), handle(99)];
    let mut have: HashMap<u64, u64> = HashMap::new();
    have.insert(handle(50).packed(), 3);
    assert_eq!(sync_meshes(&mut have, &scene, &nodes), vec![handle(11)]);
    assert_eq!(have.len(), 1);
    assert_eq!(have[&handle(11).packed()], 7);
    assert_eq!(sync_meshes(&mut have, &scene, &nodes), vec![]);
    scene.meshes[0].version = 8;
    scene.nodes[2].visible = true;
    assert_eq!(sync_meshes(&mut have, &scene, &nodes), vec![handle(11), handle(12)]);
    assert_eq!(
        draws(&scene, &nodes),
        vec![(handle(1), handle(11)), (handle(2), handle(11)), (handle(3), handle(12))]
    );
}

#[test]
fn the_view_of_the_plane_at_the_start() {
    let v = UvView::default();
    assert_eq!(v.mesh_idx, 0);
    assert!(v.show_uv && v.needs_fit);
}

#[test]
fn the_span_of_the_tiles() {
    assert_eq!(tile_span(&vec![]), TileSpan { left: 0, bottom: 0, right: 0, top: 0 });
    assert_eq!(
        tile_span(&vec![1013, 1002, 1025]),
        TileSpan { left: 1, bottom: 0, right: 4, top: 2 }
    );
}

#[test]
fn quads_and_borders_of_tiles() {
    let c = |right: bool, up: bool| Corner { column: 1, row: 1, right, up };
    let quad = tile_quad(1012);
    assert_eq!(
        quad,
        vec![c(false, false), c(true, false), c(true, true), c(false, false), c(true, true), c(false, true)]
    );
    let ends = tile_borders(&vec![1012, 1001]);
    assert_eq!(ends.len(), 16);
    assert_eq!(ends[0], c(false, false));
    assert_eq!(ends[1], c(true, false));
    assert_eq!(ends[6], c(false, true));
    assert_eq!(ends[7], c(false, false));
    assert_eq!(ends[8], Corner { column: 0, row: 0, right: false, up: false });
}

#[test]
fn edges_of_triangles_with_coordinates() {
    let mesh = Mesh {
        uvs: vec![vec![[1, 1], [2, 2], [3, 3]]],
        indices: vec![0, 1, 2, 0, 1, 9, 2, 1],
        ..empty_mesh()
    };
    assert_eq!(uv_wires(&mesh), vec![[1, 1], [2, 2], [2, 2], [3, 3], [3, 3], [1, 1]]);
    assert_eq!(uv_wires(&empty_mesh()), Vec::<[u32; 2]>::new());
}

#[test]
fn edges_are_kept_per_version() {
    let mut have: HashMap<u64, u64> = HashMap::new();
    assert!(sync_wires(&mut have, handle(1), 5));
    assert!(!sync_wires(&mut have, handle(1), 5));
    assert!(sync_wires(&mut have, handle(1), 6));
    assert!(sync_wires(&mut have, handle(2), 6));
}

#[test]
fn tiles_of_the_preview() {
    let tiles = vec![(1001, handle(5)), (1002, handle(6)), (1001, handle(7))];
    assert_eq!(preview_tiles(&vec![], &tiles), vec![(1001, Some(handle(5)))]);
    assert_eq!(
        preview_tiles(&vec![1002, 1003], &tiles),
        vec![(1002, Some(handle(6))), (1003, None)]
    );
    assert_eq!(PaintMap::ALL.map(preview_channel), [0, 2, 1, 0]);
}
