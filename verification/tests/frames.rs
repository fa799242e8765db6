//! What a frame does about the textures.

use model_painter::bits::{Rgba, ONE, ZERO};
use model_painter::brush_alpha::BrushAlpha;
use model_painter::bvh::BoxMath;
use model_painter::frame::{put_stack, Filling};
use model_painter::mesh::Mesh;
use model_painter::paint::{LayerKind, PaintDocument, PaintMap, PaintTool};
use model_painter::painter::Painter;
use model_painter::scene::{Handle, MeshInfo};
use model_painter::start::Parts;

fn handle(index: u32) -> Handle {
    Handle { index, generation: 1 }
}

/// Box arithmetic in single precision.
struct Single;

impl BoxMath for Single {
    fn centroid(&self, tri: [[u32; 3]; 3]) -> [u32; 3] {
        let at = |k: usize| {
            let sum: f32 = tri.iter().map(|c| f32::from_bits(c[k])).sum();
            (sum / 3.0).to_bits()
        };
        [at(0), at(1), at(2)]
    }

    fn minus(&self, a: u32, b: u32) -> u32 {
        (f32::from_bits(a) - f32::from_bits(b)).to_bits()
    }

    fn midpoint(&self, a: u32, b: u32) -> u32 {
        ((f32::from_bits(a) + f32::from_bits(b)) * 0.5).to_bits()
    }
}

fn no_mesh(_: Handle) -> Option<Mesh> {
    None
}

fn parts() -> Parts {
    let mesh = |index: u32, tris: usize| MeshInfo { handle: handle(index), index_count: 3 * tris, version: 1 };
    Parts {
        root: handle(1),
        ground_node: handle(2),
        sphere_node: handle(3),
        cube_node: handle(4),
        sphere: mesh(11, 4),
        cube: mesh(12, 12),
        ground: mesh(13, 2),
        paint_mat: handle(21),
        ground_mat: handle(22),
        albedo_tex: handle(31),
        mr_tex: handle(32),
        nrm_tex: handle(33),
        layer_tex: [handle(41), handle(42), handle(43), handle(44)],
    }
}

fn painter() -> Painter {
    Painter::new(&parts(), &Single, no_mesh)
}

fn bits(x: f32) -> u32 {
    x.to_bits()
}

fn luma(c: Rgba) -> u32 {
    let f = |b: u32| f32::from_bits(b);
    (0.2126 * f(c.r) + 0.7152 * f(c.g) + 0.0722 * f(c.b)).to_bits()
}

fn everything() -> Vec<Handle> {
    (31..100).map(handle).collect()
}

fn settle(p: &mut Painter) {
    let all = everything();
    p.seed_maps(&all);
    p.prepare_layers(&all);
    p.link_channels(&all);
    for map in p.dirty_maps() {
        p.plan_map(map, &all, &luma);
    }
}

#[test]
fn maps_are_seeded_once_they_are_all_there() {
    let mut p = painter();
    assert_eq!(p.seed_maps(&vec![handle(31), handle(33)]), vec![]);
    assert!(p.needs_map_seed);
    for d in &mut p.docs {
        d.composite_dirty = false;
    }
    assert_eq!(p.seed_maps(&everything()), vec![handle(31), handle(32), handle(33)]);
    assert!(!p.needs_map_seed);
    assert!(p.docs.iter().all(|d| d.composite_dirty));
    assert_eq!(p.seed_maps(&everything()), vec![]);
}

#[test]
fn layers_are_cleared_once_they_are_there() {
    let mut p = painter();
    for d in &mut p.docs {
        d.composite_dirty = false;
    }
    let fillings = p.prepare_layers(&vec![handle(41), handle(43)]);
    assert_eq!(
        fillings,
        vec![
            Filling { texture: handle(41), texel: [0, 0, 0, 0] },
            Filling { texture: handle(43), texel: [0, 0, 0, 0] },
        ]
    );
    assert!(!p.docs[0].layers[0].needs_clear);
    assert!(p.docs[1].layers[0].needs_clear);
    assert!(p.docs.iter().all(|d| d.composite_dirty));
    assert_eq!(p.prepare_layers(&everything()).len(), 2);
    assert_eq!(p.prepare_layers(&everything()).len(), 0);
}

#[test]
fn a_mask_gets_its_first_colour() {
    let mut p = painter();
    settle(&mut p);
    p.add_mask_to(0, vec![handle(60)]);
    let texel = p.docs[0].layers[0].mask_init.unwrap();
    assert_eq!(p.prepare_layers(&vec![]), vec![]);
    assert!(p.docs[0].layers[0].mask_init.is_some());
    assert_eq!(p.prepare_layers(&everything()), vec![Filling { texture: handle(60), texel }]);
    assert!(p.docs[0].layers[0].mask_init.is_none());
}

#[test]
fn tiles_are_filled_up_to_the_first_that_is_missing() {
    let mut p = painter();
    settle(&mut p);
    p.udim_ids = vec![1001, 1002, 1003];
    p.docs[0].layers[0].extra_tex = vec![(1002, handle(90)), (1003, handle(91))];
    p.docs[0].layers[0].needs_clear = true;
    let filled = p.prepare_layers(&vec![handle(41), handle(91)]);
    assert_eq!(filled, vec![Filling { texture: handle(41), texel: [0, 0, 0, 0] }]);
    assert!(p.docs[0].layers[0].needs_clear);
}

#[test]
fn metallic_and_roughness_go_together() {
    let mut p = painter();
    settle(&mut p);
    assert_eq!(p.dirty_maps(), vec![]);
    assert_eq!(p.link_channels(&everything()), vec![]);
    p.docs[PaintMap::Roughness.index()].mark_dirty();
    assert_eq!(p.link_channels(&everything()), vec![handle(32)]);
    assert_eq!(p.dirty_maps(), vec![PaintMap::Metallic, PaintMap::Roughness]);
    assert!(!p.docs[0].composite_dirty);
}

#[test]
fn a_settled_painter_has_nothing_to_do() {
    let mut p = painter();
    assert!(p.needs_composite());
    settle(&mut p);
    assert!(!p.needs_composite());
}

#[test]
fn a_map_is_tried_again_while_something_is_missing() {
    let mut p = painter();
    // The layer still waits to be cleared, so the tile shows the base colour alone.
    let passes = p.plan_map(PaintMap::Albedo, &everything(), &luma);
    assert_eq!(passes.len(), 1);
    assert_eq!(passes[0].layers.len(), 0);
    assert!(p.docs[0].composite_dirty);
    // The tile is not there at all.
    let passes = p.plan_map(PaintMap::Albedo, &vec![], &luma);
    assert_eq!(passes.len(), 0);
    assert!(p.docs[0].composite_dirty);
    p.prepare_layers(&everything());
    let passes = p.plan_map(PaintMap::Albedo, &everything(), &luma);
    assert_eq!(passes[0].dst, handle(31));
    assert_eq!(passes[0].layers.len(), 1);
    assert_eq!(passes[0].layers[0].content, Some(handle(41)));
    assert_eq!(passes[0].layers[0].opacity, ONE);
    assert!(!passes[0].normals);
    assert!(!p.docs[0].composite_dirty);
}

#[test]
fn faint_and_hidden_layers_are_left_out() {
    let mut p = painter();
    settle(&mut p);
    p.add_layer(vec![handle(50)]);
    p.add_layer(vec![handle(51)]);
    p.add_layer(vec![handle(52)]);
    p.prepare_layers(&everything());
    p.docs[0].layers[1].opacity = bits(0.001);
    p.docs[0].layers[2].visible = false;
    let passes = p.plan_map(PaintMap::Albedo, &everything(), &luma);
    let seen: Vec<Option<Handle>> = passes[0].layers.iter().map(|l| l.content).collect();
    assert_eq!(seen, vec![Some(handle(41)), Some(handle(52))]);
}

#[test]
fn a_filling_is_a_brightness_on_the_maps_of_numbers() {
    let mut p = painter();
    settle(&mut p);
    p.paint_map = PaintMap::Metallic;
    p.add_fill_layer(ZERO);
    p.docs[1].layers[1].fill = Rgba::new(ONE, ZERO, ZERO, ONE);
    let put = put_stack(&p.docs[1].layers, PaintMap::Metallic, &p.udim_ids, 1001, &everything(), &luma).unwrap();
    assert_eq!(put[1].kind, LayerKind::Fill);
    assert_eq!(put[1].fill, Rgba::grey(bits(0.2126)));
    assert_eq!(put[1].content, None);
    let put = put_stack(&p.docs[1].layers, PaintMap::Albedo, &p.udim_ids, 1001, &everything(), &luma).unwrap();
    assert_eq!(put[1].fill, Rgba::new(ONE, ZERO, ZERO, ONE));
    // A painted layer without a texture for the tile cannot be put onto it.
    assert!(put_stack(&p.docs[1].layers, PaintMap::Metallic, &p.udim_ids, 1002, &everything(), &luma).is_none());
}

#[test]
fn stamps_go_to_what_is_painted() {
    let mut p = painter();
    settle(&mut p);
    let alphas = vec![
        BrushAlpha { name: "a", size: 1, coverage: vec![0], coverage_stamp: false },
        BrushAlpha { name: "b", size: 1, coverage: vec![0], coverage_stamp: true },
    ];
    p.active_alpha = 1;
    p.active_nrm = 4;
    let plan = p.plan_stamps(&alphas, &everything());
    assert_eq!(plan.tiles, vec![(1001, handle(41))]);
    assert!(plan.coverage && !plan.normals && !plan.erase);
    assert_eq!(plan.index, 1);
    p.paint_map = PaintMap::Normal;
    p.tool = PaintTool::Eraser;
    let plan = p.plan_stamps(&alphas, &everything());
    assert!(plan.normals && !plan.coverage && plan.erase);
    assert_eq!(plan.index, 4);
    p.note_stamped(&plan, 0);
    assert!(!p.docs[3].composite_dirty);
    p.note_stamped(&plan, 2);
    assert!(p.docs[3].composite_dirty);
    let none = p.plan_stamps(&alphas, &vec![]);
    assert_eq!(none.tiles.len(), 0);
}

fn is_settled(p: &Painter) -> bool {
    let calm = |d: &PaintDocument| d.layers.iter().all(|l| !l.needs_clear && l.mask_init.is_none());
    !p.needs_map_seed && p.docs.iter().all(|d| !d.composite_dirty && calm(d))
}

#[test]
fn a_frame_leaves_nothing_to_do() {
    let mut p = painter();
    assert!(!is_settled(&p));
    // The textures have not reached the device.
    let plan = p.plan_frame(&vec![], &vec![], &luma);
    assert!(plan.seeds.is_empty() && plan.fillings.is_empty() && plan.passes.iter().all(|t| t.is_empty()));
    assert!(!is_settled(&p));
    let plan = p.plan_frame(&vec![], &everything(), &luma);
    assert_eq!(plan.seeds, [handle(31), handle(32), handle(33)]);
    assert_eq!(plan.fillings.len(), 4);
    assert_eq!(plan.bases, [handle(32)]);
    let put: Vec<Handle> = plan.passes.iter().flatten().map(|t| t.dst).collect();
    assert_eq!(put, [handle(31), handle(32), handle(32), handle(33)]);
    assert!(plan.passes.iter().flatten().all(|t| t.layers.len() == 1));
    assert!(is_settled(&p));
    let plan = p.plan_frame(&vec![], &everything(), &luma);
    assert!(plan.seeds.is_empty() && plan.fillings.is_empty() && plan.bases.is_empty() && plan.passes.is_empty());
}

#[test]
fn a_frame_settles_on_all_tiles() {
    let mut p = painter();
    p.adopt_tiles(&vec![(handle(11), vec![1002, 1001, 1011])]);
    assert_eq!(p.udim_ids, [1001, 1002, 1011]);
    let maps = (50..56).map(handle).collect();
    let layers = (60..72).map(handle).collect();
    p.finish_unwrap("tri-pack", maps, layers);
    p.add_fill_layer(bits(0.5));
    p.add_mask_to(1, (80..83).map(handle).collect());
    let plan = p.plan_frame(&vec![], &everything(), &luma);
    assert_eq!(plan.passes.iter().map(|t| t.len()).collect::<Vec<_>>(), [3, 3, 3, 3]);
    assert!(is_settled(&p));
}
