//! The panels, and what their edits do.

use model_painter::actions::{Actions, ModelStep};
use model_painter::bits::{Rgba, ONE, ZERO};
use model_painter::bvh::BoxMath;
use model_painter::effects::{
    edit_effects, post_effects_panel, Control, EffectEdit, Effects, Followup, Group, Kind, Row,
};
use model_painter::mesh::Mesh;
use model_painter::paint::{LayerKind, PaintMap, PaintTarget, PaintTool};
use model_painter::painter::{DebugView, Painter};
use model_painter::panels::{
    alphas_panel, brush_panel, brush_state, click_segments, edit_brush, edit_layers, edit_view, hint_line,
    layers_panel, mesh_name, meshes_panel, normals_shown, pick_stamp, recolor_segment, rename_segment,
    segments_panel, toggle_mesh, uv_mesh_index, BrushEdit, BrushRow, BrushText, FillEdit, LayerEdit, MeshRow,
    SegmentClick, SegmentRow, StampCell, ViewEdit,
};
use model_painter::pick::Hit;
use model_painter::scene::{Handle, MeshInfo};
use model_painter::segment::{AppMode, SegOp, SegTool, UNASSIGNED};
use model_painter::session::{Cursor, Mark, Session};
use model_painter::start::Parts;
use model_painter::stroke::{RectStep, SegStep};

fn handle(index: u32) -> Handle {
    Handle { index, generation: 1 }
}

/// Box arithmetic in single precision.
struct Single;

impl BoxMath for Single {
    fn centroid(&self, tri: [[u32; 3]; 3]) -> [u32; 3] {
        let at = |k: usize| {
            let sum: f32 = tri.iter().map(|c| f32::from_bits(c[k])).sum();
            (sum / 3.0).to_bits()
        };
        [at(0), at(1), at(2)]
    }

    fn minus(&self, a: u32, b: u32) -> u32 {
        (f32::from_bits(a) - f32::from_bits(b)).to_bits()
    }

    fn midpoint(&self, a: u32, b: u32) -> u32 {
        ((f32::from_bits(a) + f32::from_bits(b)) * 0.5).to_bits()
    }
}

fn no_mesh(_: Handle) -> Option<Mesh> {
    None
}

fn parts() -> Parts {
    let mesh = |index: u32, tris: usize| MeshInfo { handle: handle(index), index_count: 3 * tris, version: 1 };
    Parts {
        root: handle(1),
        ground_node: handle(2),
        sphere_node: handle(3),
        cube_node: handle(4),
        sphere: mesh(11, 4),
        cube: mesh(12, 12),
        ground: mesh(13, 2),
        paint_mat: handle(21),
        ground_mat: handle(22),
        albedo_tex: handle(31),
        mr_tex: handle(32),
        nrm_tex: handle(33),
        layer_tex: [handle(41), handle(42), handle(43), handle(44)],
    }
}

fn painter() -> Painter {
    Painter::new(&parts(), &Single, no_mesh)
}

fn bits(x: f32) -> u32 {
    x.to_bits()
}

fn effects() -> Effects {
    Effects {
        values: vec![1; 64],
        fog_color: [0; 3],
        ssgi_samples: 8,
        ssgi_steps: 8,
        focus_smooth: ONE,
        focus_distance: bits(3.0),
    }
}

#[test]
fn a_frame_begins_with_nothing_clicked() {
    let p = painter();
    let a = p.begin_actions();
    assert!(!a.keep && !a.add_layer && !a.del_layer && !a.open_model);
    assert_eq!(a.mask_click, None);
    assert_eq!((a.shape, a.active), (0, 0));
    assert_eq!(a.tool, PaintTool::Paint);
}

#[test]
fn rows_of_layers_from_the_top() {
    let mut p = painter();
    p.add_fill_layer(ZERO);
    p.add_mask_to(1, vec![handle(60)]);
    let a = p.begin_actions();
    let rows = layers_panel(&a, &p.docs);
    assert_eq!(rows.len(), 2);
    assert_eq!(rows[0].index, 1);
    assert!(rows[0].active && rows[0].mask_selected && rows[0].visible);
    assert_eq!(rows[0].fill, FillEdit::Color(p.brush.color));
    assert_eq!(rows[1].index, 0);
    assert!(!rows[1].active && !rows[1].mask_selected);
    assert_eq!(rows[1].fill, FillEdit::Nothing);
    p.paint_map = PaintMap::Metallic;
    p.add_fill_layer(bits(0.25));
    let rows = layers_panel(&p.begin_actions(), &p.docs);
    assert_eq!(rows[0].fill, FillEdit::Value(Rgba::grey(bits(0.25))));
    p.paint_map = PaintMap::Normal;
    p.add_fill_layer(ZERO);
    assert_eq!(layers_panel(&p.begin_actions(), &p.docs)[0].fill, FillEdit::Flat);
}

#[test]
fn edits_of_layers() {
    let mut p = painter();
    p.docs[2].active = 0;
    let mut a = p.begin_actions();
    edit_layers(&mut a, &mut p.docs, LayerEdit::Eye(0));
    assert!(!p.docs[0].layers[0].visible && a.dirty_layers && a.keep);
    edit_layers(&mut a, &mut p.docs, LayerEdit::Opacity(0, bits(0.5)));
    assert_eq!(p.docs[0].layers[0].opacity, bits(0.5));
    edit_layers(&mut a, &mut p.docs, LayerEdit::FillValue(0, bits(0.2)));
    assert_eq!(p.docs[0].layers[0].fill, Rgba::grey(bits(0.2)));
    edit_layers(&mut a, &mut p.docs, LayerEdit::FillColor(0, Rgba::grey(ZERO)));
    assert_eq!(p.docs[0].layers[0].fill, Rgba::grey(ZERO));
    edit_layers(&mut a, &mut p.docs, LayerEdit::Mask(3));
    assert_eq!(a.mask_click, Some(3));
    edit_layers(&mut a, &mut p.docs, LayerEdit::Select(2));
    assert_eq!((a.active, a.content_click), (2, Some(2)));
    edit_layers(&mut a, &mut p.docs, LayerEdit::Channel(2));
    assert_eq!((a.paint_map, a.active), (PaintMap::Roughness, 0));
    let mut b = p.begin_actions();
    edit_layers(&mut b, &mut p.docs, LayerEdit::Add);
    edit_layers(&mut b, &mut p.docs, LayerEdit::Up);
    assert!(b.add_layer && b.move_up && !b.keep && !b.add_fill && !b.del_layer);
}

#[test]
fn layer_buttons_work_in_order() {
    let mut p = painter();
    let a = Actions { add_layer: true, add_fill: true, move_down: true, ..p.begin_actions() };
    let freed = p.apply_layers(&a, bits(0.5), vec![], vec![handle(70)]);
    assert_eq!(freed, vec![]);
    let names: Vec<&str> = p.doc().layers.iter().map(|l| l.name.as_str()).collect();
    assert_eq!(names, vec!["Layer 1", "Fill 1", "Layer 2"]);
    assert_eq!(p.doc().active, 1);
    assert_eq!(p.doc().layers[1].kind, LayerKind::Fill);
    let a = Actions { mask_click: Some(0), ..p.begin_actions() };
    assert!(p.click_wants_mask(&a));
    p.apply_layers(&a, ZERO, vec![handle(71)], vec![]);
    assert_eq!(p.doc().active, 0);
    assert_eq!(p.doc().paint_target, PaintTarget::Mask);
    let a = Actions { content_click: Some(2), del_layer: true, ..p.begin_actions() };
    assert_eq!(p.apply_layers(&a, ZERO, vec![], vec![]), vec![handle(70)]);
    assert_eq!(p.doc().layers.len(), 2);
}

#[test]
fn choices_of_a_frame() {
    let mut p = painter();
    p.debug_view = DebugView::Albedo;
    let a = Actions { mode: AppMode::Segment, seg_tool: SegTool::Rect, shape: 1, ..p.begin_actions() };
    let step = p.apply_choices(&a);
    assert_eq!(step.model, ModelStep::Show(1));
    assert!(!step.clear_marks);
    assert_eq!(p.debug_view, DebugView::Wireframe);
    assert!(p.seg_overlay_dirty);
    let a = Actions { mode: AppMode::Paint, open_model: true, ..p.begin_actions() };
    let step = p.apply_choices(&a);
    assert_eq!(step.model, ModelStep::Open);
    assert!(step.clear_marks);
    assert_eq!(p.debug_view, DebugView::Albedo);
    assert_eq!(p.apply_choices(&p.begin_actions()).model, ModelStep::Stay);
}

#[test]
fn the_segments_panel() {
    let mut p = painter();
    p.segmentation.set_face(handle(11), 0, 1);
    assert_eq!(segments_panel(&p.segmentation), vec![SegmentRow { id: 1, active: true, count: 1 }]);
    let mut a = p.begin_actions();
    click_segments(&mut a, &mut p.segmentation, SegmentClick::Add);
    assert!(a.add_segment && a.keep);
    p.apply_segments(&a);
    let rows = segments_panel(&p.segmentation);
    assert_eq!(rows[1], SegmentRow { id: 2, active: true, count: 0 });
    assert!(!rows[0].active);
    let mut a = p.begin_actions();
    click_segments(&mut a, &mut p.segmentation, SegmentClick::Select(0));
    assert_eq!(p.segmentation.active, Some(1));
    rename_segment(&mut a, &mut p.segmentation, 0, "Arm".to_string());
    assert_eq!(p.segmentation.segments[0].name, "Arm");
    assert!(!a.seg_overlay);
    recolor_segment(&mut a, &mut p.segmentation, 0, Rgba::grey(ONE));
    assert_eq!(p.segmentation.color_of(1), Some(Rgba::grey(ONE)));
    assert!(a.seg_overlay);
    click_segments(&mut a, &mut p.segmentation, SegmentClick::Delete);
    click_segments(&mut a, &mut p.segmentation, SegmentClick::Unwrap);
    assert!(a.del_segment && a.unwrap_uv);
    p.apply_segments(&a);
    assert_eq!(p.segmentation.active, Some(2));
    assert_eq!(p.segmentation.label_of(handle(11), 0), UNASSIGNED);
}

#[test]
fn the_meshes_panel() {
    let mut p = painter();
    let nodes = vec![handle(3), handle(99), handle(4)];
    assert_eq!(
        meshes_panel(&p.scene, &nodes),
        vec![
            MeshRow { node: handle(3), visible: true },
            MeshRow { node: handle(4), visible: false },
        ]
    );
    let mut a = p.begin_actions();
    toggle_mesh(&mut a, &mut p.scene, handle(3));
    assert!(a.seg_overlay && a.keep);
    assert!(!meshes_panel(&p.scene, &nodes)[0].visible);
    assert_eq!(mesh_name("Head", handle(7)), "Head");
    assert_eq!(mesh_name("", Handle { index: 12, generation: 3 }), "Mesh 12/3");
    assert_eq!(uv_mesh_index(5, 0), None);
    assert_eq!(uv_mesh_index(5, 3), Some(2));
    assert_eq!(uv_mesh_index(1, 3), Some(1));
}

#[test]
fn stamps_and_brush_shapes() {
    let p = painter();
    let mut a = p.begin_actions();
    let cells = alphas_panel(&a, false, 2);
    assert_eq!(cells, vec![StampCell { slot: 16, selected: true }, StampCell { slot: 17, selected: false }]);
    pick_stamp(&mut a, true, 3);
    assert_eq!((a.active_nrm, a.active_alpha), (3, 0));
    assert_eq!(alphas_panel(&a, true, 4)[3], StampCell { slot: 51, selected: true });
    assert!(normals_shown(PaintMap::Normal, PaintTarget::Content));
    assert!(!normals_shown(PaintMap::Normal, PaintTarget::Mask));
    assert!(!normals_shown(PaintMap::Albedo, PaintTarget::Content));
}

#[test]
fn the_viewport_panel() {
    let p = painter();
    let mut a = p.begin_actions();
    assert_eq!(hint_line(&a, PaintTarget::Content), "LMB paint · MMB pan · RMB orbit · wheel zoom");
    a.tool = PaintTool::Eraser;
    assert_eq!(hint_line(&a, PaintTarget::Content), "LMB erase · MMB pan · RMB orbit · wheel zoom");
    edit_view(&mut a, ViewEdit::Mode(1));
    assert_eq!(a.mode, AppMode::Segment);
    a.seg_tool = SegTool::Rect;
    a.seg_op = SegOp::Deselect;
    assert_eq!(hint_line(&a, PaintTarget::Content), "LMB rect unassign · MMB pan · RMB orbit · wheel zoom");
    edit_view(&mut a, ViewEdit::View(1));
    assert_eq!(a.debug_view, DebugView::CHOICES[1]);
}

#[test]
fn the_brush_panel() {
    let mut p = painter();
    let mut a = p.begin_actions();
    let s = brush_state(&a, &p.docs, &p.brush, false, false);
    let rows = brush_panel(&s);
    assert!(rows.contains(&BrushRow::Text(BrushText::Tint)));
    assert!(rows.contains(&BrushRow::Color { color: p.brush.color }));
    edit_brush(&mut a, &mut p.docs, &mut p.brush, BrushEdit::Radius(bits(0.3)));
    assert_eq!(p.brush.radius, bits(0.3));
    assert!(!a.keep);
    edit_brush(&mut a, &mut p.docs, &mut p.brush, BrushEdit::Tool(1));
    assert_eq!(a.tool, PaintTool::Eraser);
    let s = brush_state(&a, &p.docs, &p.brush, false, false);
    assert!(!brush_panel(&s).contains(&BrushRow::Color { color: p.brush.color }));
    edit_brush(&mut a, &mut p.docs, &mut p.brush, BrushEdit::Open);
    edit_brush(&mut a, &mut p.docs, &mut p.brush, BrushEdit::Shape(1));
    assert!(a.open_model);
    assert_eq!(a.shape, 1);
    assert_eq!(BrushText::Opacity.label(), "Opacity — stroke strength");
}

#[test]
fn effects_are_dead_while_their_group_is_off() {
    let mut e = effects();
    let rows = post_effects_panel(&e);
    assert_eq!(rows[0], Row::Title(Group::EnvMap));
    assert!(rows.contains(&Row::Edit { control: Control::BloomIntensity, live: true }));
    e.set_check(Control::BloomEnabled, false);
    assert!(!e.on(Control::BloomEnabled));
    let rows = post_effects_panel(&e);
    assert!(rows.contains(&Row::Edit { control: Control::BloomIntensity, live: false }));
    assert!(rows.contains(&Row::Edit { control: Control::FxaaEnabled, live: true }));
}

#[test]
fn the_panel_goes_on_after_an_edit() {
    let mut e = effects();
    let before = (e.values.clone(), e.fog_color, e.focus_distance);
    assert!(!edit_effects(&mut e, None));
    assert_eq!((e.values.clone(), e.fog_color, e.focus_distance), before);
    assert!(edit_effects(&mut e, Some(EffectEdit::Check(Control::BloomEnabled, false))));
    assert!(!e.on(Control::BloomEnabled));
    assert!(edit_effects(&mut e, Some(EffectEdit::Number(Control::FogDensity, bits(0.1)))));
    assert_eq!(e.values[Control::FogDensity.index()], bits(0.1));
    assert!(edit_effects(&mut e, Some(EffectEdit::FogColor([1, 2, 3]))));
    assert_eq!(e.fog_color, [1, 2, 3]);
    // An edit counts even if it sets what was set before.
    assert!(edit_effects(&mut e, Some(EffectEdit::FogColor([1, 2, 3]))));
    let method = EffectEdit::Choice(Control::AoMethod, 1);
    assert!(edit_effects(&mut e, Some(method)));
    assert_eq!(e.chosen(Control::AoMethod), 1);
    assert_eq!(method.followup(), Followup::Nothing);
    let quality = EffectEdit::Choice(Control::SsgiQuality, 2);
    assert!(edit_effects(&mut e, Some(quality)));
    assert_eq!(quality.followup(), Followup::Quality(2));
}

#[test]
fn edits_of_effects() {
    let mut e = effects();
    e.set_number(Control::FogDensity, bits(0.1));
    assert_eq!(e.values[Control::FogDensity.index()], bits(0.1));
    e.set_number(Control::DofFocus, bits(9.0));
    assert_eq!(e.focus_distance, bits(3.0));
    e.focus_smooth = bits(0.0005);
    e.set_number(Control::DofFocus, bits(9.0));
    assert_eq!(e.focus_distance, bits(9.0));
    assert_eq!(e.set_choice(Control::SsgiQuality, 2), Followup::Quality(2));
    assert_eq!(e.set_choice(Control::AoMethod, 0), Followup::Nothing);
    assert_eq!(e.chosen(Control::AoMethod), 0);
    e.set_fog_color([1, 2, 3]);
    assert_eq!(e.fog_color, [1, 2, 3]);
    assert_eq!(e.quality_index(), 1);
    e.ssgi_samples = 4;
    e.ssgi_steps = 4;
    assert_eq!(e.quality_index(), 0);
    e.ssgi_steps = 12;
    assert_eq!(e.chosen(Control::SsgiQuality), 2);
    assert_eq!(Control::EnvIntensity.kind(), Kind::Slider { low: ZERO, high: bits(3.0) });
    for (i, c) in Control::ALL.iter().enumerate() {
        assert_eq!(c.index(), i);
    }
}

fn face_hit(tri: u32) -> Hit {
    Hit {
        node: handle(3),
        mesh: handle(11),
        tri_index: tri,
        t: ONE,
        position: [0; 3],
        normal: [0; 3],
        uv: [5, 6],
        tri_world: [[0; 3]; 3],
        tri_uv: [[0; 2]; 3],
    }
}

const RECT: [u32; 4] = [0, 0, 0x4120_0000, 0x4120_0000];

#[test]
fn working_on_segments() {
    let mut p = painter();
    p.set_mode(AppMode::Segment);
    let never = |_: [u32; 2], _: [u32; 2], _: u32, _: u32| false;
    assert!(matches!(p.segment_at([1, 1], RECT, [1, 1], ONE, Some(face_hit(2)), never), SegStep::Done));
    assert_eq!(p.segmentation.label_of(handle(11), 2), 1);
    p.seg_op = SegOp::Deselect;
    // The same face is not worked on twice in one stroke.
    p.segment_at([1, 1], RECT, [1, 1], ONE, Some(face_hit(2)), never);
    assert_eq!(p.segmentation.label_of(handle(11), 2), 1);
    p.begin_stroke();
    p.segment_at([1, 1], RECT, [1, 1], ONE, Some(face_hit(2)), never);
    assert_eq!(p.segmentation.label_of(handle(11), 2), UNASSIGNED);
    p.seg_tool = SegTool::Brush;
    assert!(matches!(p.segment_at([1, 1], RECT, [1, 1], ONE, Some(face_hit(0)), never), SegStep::Around(_)));
    let always = |_: [u32; 2], _: [u32; 2], _: u32, _: u32| true;
    assert!(matches!(p.segment_at([1, 1], RECT, [1, 1], ONE, Some(face_hit(0)), always), SegStep::Done));
    p.seg_op = SegOp::Select;
    p.apply_seg_faces(&vec![(handle(11), 0), (handle(11), 3)]);
    assert_eq!(p.segmentation.face_count(1), 2);
    p.seg_tool = SegTool::Rect;
    p.begin_stroke();
    assert!(matches!(p.commit_rect_select(|_, _| true), RectStep::Nothing));
    p.segment_at([4, 4], RECT, [4, 4], ONE, None, never);
    p.segment_at([9, 9], RECT, [9, 9], ONE, None, never);
    assert!(matches!(p.commit_rect_select(|_, _| false), RectStep::Inside { from: [4, 4], to: [9, 9], .. }));
    assert!(matches!(p.commit_rect_select(|_, _| true), RectStep::Click { at: [9, 9], .. }));
    p.end_stroke();
    assert!(matches!(p.commit_rect_select(|_, _| true), RectStep::Nothing));
}

#[test]
fn the_view_comes_back() {
    let mut p = painter();
    p.debug_view = DebugView::Roughness;
    p.painting = true;
    assert!(!p.set_mode(AppMode::Paint));
    assert!(p.painting);
    assert!(!p.set_mode(AppMode::Segment));
    assert_eq!(p.debug_view, DebugView::Wireframe);
    assert!(!p.painting);
    assert!(p.set_mode(AppMode::Paint));
    assert_eq!(p.debug_view, DebugView::Roughness);
}

#[test]
fn marks_on_the_faces() {
    let mut p = painter();
    assert!(p.sync_segment_overlay().is_none());
    p.set_mode(AppMode::Segment);
    p.segmentation.set_face(handle(11), 3, 1);
    let marks = p.sync_segment_overlay().unwrap();
    let color = p.segmentation.color_of(1).unwrap();
    assert_eq!(marks, vec![Mark { node: handle(3), mesh: handle(11), tri: 3, color }]);
    assert!(p.sync_segment_overlay().is_none());
    p.seg_overlay_dirty = true;
    p.scene.nodes[2].visible = false;
    assert_eq!(p.sync_segment_overlay().unwrap(), vec![]);
}

#[test]
fn the_cursor_shows_the_tool() {
    let mut p = painter();
    assert!(matches!(p.brush_cursor([1, 2], false, false), Cursor::Hidden));
    assert!(matches!(p.brush_cursor([1, 2], true, true), Cursor::Hidden));
    let Cursor::Ring { radius, ring, color } = p.brush_cursor([1, 2], true, false) else { panic!() };
    assert_eq!(radius, p.brush.radius);
    assert!(ring);
    assert_eq!(color, Rgba::new(ONE, ONE, ONE, bits(0.92)));
    p.mode = AppMode::Segment;
    let Cursor::Ring { radius, ring, color } = p.brush_cursor([1, 2], true, false) else { panic!() };
    assert_eq!((radius, ring), (ZERO, false));
    assert_eq!(color, Rgba::new(ONE, bits(0.92), bits(0.35), bits(0.92)));
    p.seg_tool = SegTool::Rect;
    p.seg_op = SegOp::Deselect;
    let Cursor::Frame { from, color } = p.brush_cursor([1, 2], true, false) else { panic!() };
    assert_eq!(from, [1, 2]);
    assert_eq!(color, Rgba::new(bits(0.55), bits(0.75), ONE, bits(0.92)));
    p.rect_start = Some([7, 7]);
    assert!(matches!(p.brush_cursor([1, 2], true, false), Cursor::Frame { from: [7, 7], .. }));
}

#[test]
fn the_camera_goes_to_a_view() {
    let mut p = painter();
    let mut s = Session::new();
    assert!(!p.tick_snap(ONE));
    p.start_snap();
    p.note_view("X");
    assert_eq!(p.status, "View X · ortho");
    assert!(p.orbit_snap_active() && p.ortho_from_view);
    assert!(p.tick_snap(bits(0.5)));
    assert!(p.orbit_snap_active());
    assert_eq!(p.wait_ms(&s), 8);
    assert!(p.tick_snap(ONE));
    assert!(!p.orbit_snap_active() && p.ortho_from_view);
    assert!(!p.interrupt_orbit_snap(false));
    assert!(p.ortho_from_view);
    assert!(p.interrupt_orbit_snap(true));
    assert!(!p.ortho_from_view);
    assert!(!p.interrupt_orbit_snap(true));
    s.animating = false;
    assert_eq!(p.wait_ms(&s), 33);
    p.note_activity(&mut s, false, false);
    // The maps still have to be made.
    assert!(s.animating);
}
