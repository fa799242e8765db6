//! Layers, masks, stacks and maps.

use model_painter::bits::{Rgba, ONE, ZERO};
use model_painter::bvh::BoxMath;
use model_painter::maps::MaterialMaps;
use model_painter::mesh::Mesh;
use model_painter::paint::{
    flat_normal, Brush, Layer, LayerKind, PaintDocument, PaintMap, PaintTarget, PaintTool, TEX_SIZE,
};
use model_painter::painter::{base_of, fill_rgba, seed_texel, DebugView, Painter};
use model_painter::scene::{Handle, MeshInfo};
use model_painter::segment::AppMode;
use model_painter::start::Parts;

fn handle(index: u32) -> Handle {
    Handle { index, generation: 1 }
}

/// Box arithmetic in single precision.
struct Single;

impl BoxMath for Single {
    fn centroid(&self, tri: [[u32; 3]; 3]) -> [u32; 3] {
        let at = |k: usize| {
            let sum: f32 = tri.iter().map(|c| f32::from_bits(c[k])).sum();
            (sum / 3.0).to_bits()
        };
        [at(0), at(1), at(2)]
    }

    fn minus(&self, a: u32, b: u32) -> u32 {
        (f32::from_bits(a) - f32::from_bits(b)).to_bits()
    }

    fn midpoint(&self, a: u32, b: u32) -> u32 {
        ((f32::from_bits(a) + f32::from_bits(b)) * 0.5).to_bits()
    }
}

fn no_mesh(_: Handle) -> Option<Mesh> {
    None
}

fn parts() -> Parts {
    let mesh = |index: u32, tris: usize| MeshInfo { handle: handle(index), index_count: 3 * tris, version: 1 };
    Parts {
        root: handle(1),
        ground_node: handle(2),
        sphere_node: handle(3),
        cube_node: handle(4),
        sphere: mesh(11, 4),
        cube: mesh(12, 12),
        ground: mesh(13, 2),
        paint_mat: handle(21),
        ground_mat: handle(22),
        albedo_tex: handle(31),
        mr_tex: handle(32),
        nrm_tex: handle(33),
        layer_tex: [handle(41), handle(42), handle(43), handle(44)],
    }
}

fn painter() -> Painter {
    Painter::new(&parts(), &Single, no_mesh)
}

fn bits(x: f32) -> u32 {
    x.to_bits()
}

#[test]
fn the_painter_begins_with_the_sphere() {
    let p = painter();
    assert_eq!(p.paintable, vec![handle(3)]);
    assert_eq!(p.shape, 0);
    assert_eq!(p.status, "Ready · GPU brush");
    assert_eq!(p.udim_ids, vec![1001]);
    assert_eq!(p.mode, AppMode::Paint);
    assert_eq!(p.debug_view, DebugView::Final);
    assert!(p.needs_map_seed);
    assert_eq!(p.docs.len(), 4);
    for (i, d) in p.docs.iter().enumerate() {
        assert_eq!(d.layers.len(), 1);
        assert_eq!(d.layers[0].name, "Layer 1");
        assert_eq!(d.layers[0].tex, Some(handle(41 + i as u32)));
        assert!(d.layers[0].needs_clear);
        assert_eq!((d.width, d.height), (TEX_SIZE, TEX_SIZE));
        assert!(d.composite_dirty);
    }
    let visible: Vec<bool> = p.scene.nodes.iter().map(|n| n.visible).collect();
    assert_eq!(visible, vec![true, true, true, false]);
    // The faces of the sphere are known, and in no segment.
    assert_eq!(p.segmentation.leftover_faces(), 4);
}

#[test]
fn base_colours_and_texels() {
    let albedo = base_of(PaintMap::Albedo);
    assert_eq!(albedo, Rgba::new(bits(220.0 / 255.0), bits(220.0 / 255.0), bits(225.0 / 255.0), ONE));
    assert_eq!(base_of(PaintMap::Metallic), Rgba::new(ZERO, ZERO, ZERO, ONE));
    assert_eq!(base_of(PaintMap::Roughness), Rgba::new(ZERO, bits(0.45), ZERO, ONE));
    assert_eq!(base_of(PaintMap::Normal), flat_normal());
    assert_eq!(flat_normal(), Rgba::new(bits(128.0 / 255.0), bits(128.0 / 255.0), ONE, ONE));
    assert_eq!(seed_texel(PaintMap::Albedo), [220, 220, 225, 255]);
    assert_eq!(seed_texel(PaintMap::Metallic), [255, 114, 0, 255]);
    assert_eq!(seed_texel(PaintMap::Normal), [128, 128, 255, 255]);
}

#[test]
fn the_brush_at_the_start() {
    let b = Brush::default();
    assert_eq!(b.color, Rgba::new(bits(0.9), bits(0.15), bits(0.12), ONE));
    assert_eq!(b.radius, bits(0.08));
    assert_eq!(b.hardness, bits(0.55));
    assert_eq!(b.opacity, bits(0.85));
    assert_eq!(b.spacing, bits(0.35));
}

#[test]
fn maps_and_their_indices() {
    for (i, m) in PaintMap::ALL.iter().enumerate() {
        assert_eq!(m.index(), i);
    }
    assert_eq!(PaintMap::ALL.map(|m| m.label()), ["Albedo", "Metallic", "Roughness", "Normal"]);
    assert_eq!(PaintMap::Metallic.channel_mask(), Rgba::new(ZERO, ZERO, ONE, ZERO));
    assert_eq!(PaintMap::Roughness.channel_mask(), Rgba::new(ZERO, ONE, ZERO, ZERO));
    assert_eq!(PaintMap::Albedo.channel_mask(), Rgba::grey(ONE));
    assert_eq!(PaintTool::ALL.map(|t| t.label()), ["Paint", "Eraser"]);
}

#[test]
fn whole_texels_are_filled() {
    let mut buf = vec![9u8; 10];
    fill_rgba(&mut buf, 1, 2, 3, 4);
    assert_eq!(buf, vec![1, 2, 3, 4, 1, 2, 3, 4, 9, 9]);
}

#[test]
fn new_layers_go_on_top() {
    let mut p = painter();
    p.add_layer(vec![handle(50)]);
    let d = p.doc();
    assert_eq!(d.layers.len(), 2);
    assert_eq!(d.active, 1);
    assert_eq!(d.layers[1].name, "Layer 2");
    assert_eq!(d.layers[1].tex, Some(handle(50)));
    assert_eq!(p.docs[1].layers.len(), 1);
    p.add_fill_layer(bits(0.5));
    assert_eq!(p.doc().layers[2].name, "Fill 1");
    assert_eq!(p.doc().layers[2].kind, LayerKind::Fill);
    assert_eq!(p.doc().layers[2].fill, p.brush.color);
    p.paint_map = PaintMap::Roughness;
    p.add_fill_layer(bits(0.5));
    assert_eq!(p.doc().layers[1].fill, Rgba::grey(bits(0.5)));
    p.paint_map = PaintMap::Normal;
    p.add_fill_layer(bits(0.5));
    assert_eq!(p.doc().layers[1].fill, flat_normal());
}

#[test]
fn a_mask_comes_and_goes() {
    let mut p = painter();
    assert!(p.wants_mask(0));
    assert!(!p.wants_mask(1));
    p.toggle_mask_target(0, vec![handle(60)]);
    assert_eq!(p.doc().paint_target, PaintTarget::Mask);
    assert_eq!(p.doc().layers[0].mask, Some(handle(60)));
    assert!(p.doc().layers[0].mask_init.is_some());
    assert!(p.painting_mask());
    assert_eq!(p.stamp_target_tiles(), vec![(1001, handle(60))]);
    p.toggle_mask_target(0, vec![]);
    assert_eq!(p.doc().paint_target, PaintTarget::Content);
    assert_eq!(p.stamp_target_tex(), Some(handle(41)));
    p.toggle_mask_target(0, vec![]);
    // Deleting while the mask is painted deletes the mask alone.
    assert_eq!(p.remove_active_layer(), vec![handle(60)]);
    assert_eq!(p.doc().layers.len(), 1);
    assert_eq!(p.doc().layers[0].mask, None);
    assert_eq!(p.doc().paint_target, PaintTarget::Content);
}

#[test]
fn the_last_layer_is_only_cleared() {
    let mut p = painter();
    p.docs[0].layers[0].needs_clear = false;
    assert_eq!(p.remove_active_layer(), vec![]);
    assert_eq!(p.doc().layers.len(), 1);
    assert!(p.doc().layers[0].needs_clear);
    p.add_layer(vec![handle(50)]);
    assert_eq!(p.remove_active_layer(), vec![handle(50)]);
    assert_eq!(p.doc().active, 0);
}

#[test]
fn moving_a_layer_keeps_all_layers() {
    let mut d = PaintDocument::new(8, 8, Rgba::grey(ONE));
    for name in ["a", "b", "c"] {
        d.push_layer(Layer::paint(name.to_string(), handle(1)));
    }
    d.move_active(1);
    assert_eq!(d.active, 2);
    d.move_active(-2);
    let names: Vec<&str> = d.layers.iter().map(|l| l.name.as_str()).collect();
    assert_eq!(names, vec!["c", "b", "a"]);
    assert_eq!(d.active, 0);
    d.move_active(-1);
    assert_eq!(d.active, 0);
}

#[test]
fn a_fill_layer_is_painted_through_its_mask() {
    let mut p = painter();
    p.add_fill_layer(ZERO);
    assert_eq!(p.stamp_target_tiles(), vec![]);
    assert!(p.stroke_wants_mask());
    let near = |_: [u32; 2], _: [u32; 2], _: u32, _: u32| false;
    let rect = [0, 0, bits(10.0), bits(10.0)];
    assert!(p.paint_at([1, 1], rect, [1, 1], bits(5.0), None, near, vec![handle(70)]));
    assert_eq!(p.doc().layers[1].mask, Some(handle(70)));
    assert_eq!(p.pending_stamps.len(), 1);
    assert_eq!(p.pending_stamps[0].plane_normal, [ZERO, ONE, ZERO]);
    let far = |_: [u32; 2], _: [u32; 2], _: u32, _: u32| true;
    assert!(!p.paint_at([2, 2], rect, [2, 2], bits(5.0), None, far, vec![]));
    assert_eq!(p.take_pending_stamps().len(), 1);
    assert_eq!(p.pending_stamps.len(), 0);
}

#[test]
fn masks_and_numbers_take_the_brightness() {
    let mut p = painter();
    assert_eq!(p.stamp_brush(bits(0.3)).color, p.brush.color);
    p.paint_map = PaintMap::Metallic;
    assert_eq!(p.stamp_brush(bits(0.3)).color, Rgba::grey(bits(0.3)));
    p.paint_map = PaintMap::Albedo;
    p.add_mask_to(0, vec![handle(60)]);
    assert_eq!(p.stamp_brush(bits(0.3)).color, Rgba::grey(bits(0.3)));
    assert_eq!(p.stamp_brush(bits(0.3)).radius, p.brush.radius);
}

#[test]
fn tiles_are_dealt_out_map_by_map() {
    let mut p = painter();
    let plan = vec![(handle(11), vec![1003, 1001, 1003, 1002])];
    p.adopt_tiles(&plan);
    assert_eq!(p.udim_ids, vec![1001, 1002, 1003]);
    assert_eq!(p.textures_per_layer(), 3);
    let maps: Vec<Handle> = (100..106).map(handle).collect();
    let layers: Vec<Handle> = (200..212).map(handle).collect();
    let freed = p.finish_unwrap("tri-pack", maps, layers);
    assert_eq!(freed, vec![handle(41), handle(42), handle(43), handle(44)]);
    assert_eq!(p.status, "Unwrapped · tri-pack · 3 UDIM");
    let albedo = p.material_map_tiles(PaintMap::Albedo);
    assert_eq!(albedo.len(), 3);
    assert_eq!(albedo[0], (1001, handle(31)));
    assert_eq!(albedo[1].0, 1002);
    assert_eq!(p.material_map_tiles(PaintMap::Metallic), p.material_map_tiles(PaintMap::Roughness));
    assert_eq!(p.dst_map_handles().len(), 9);
    assert_eq!(p.docs[1].layers[0].tex, Some(handle(203)));
    assert_eq!(p.docs[1].layers[0].extra_tex, vec![(1002, handle(204)), (1003, handle(205))]);
    assert!(matches!(p.paint_maps(), MaterialMaps::Udim { .. }));
    assert_eq!(p.map_seeds().len(), 9);
    assert_eq!(p.reset_udim().len(), 6);
    assert!(matches!(p.paint_maps(), MaterialMaps::Single { .. }));
}

#[test]
fn a_plan_without_faces_leaves_the_first_tile() {
    let mut p = painter();
    p.adopt_tiles(&vec![]);
    assert_eq!(p.udim_ids, vec![1001]);
}
