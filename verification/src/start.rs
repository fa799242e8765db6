//! The painter at the start.

use std::collections::HashMap;

use vstd::prelude::*;
use vstd::string::StringExecFns;

use crate::bvh::BoxMath;
use crate::mesh::Mesh;
use crate::paint::{Brush, Layer, PaintDocument, PaintMap, PaintTool, FIRST_TILE, TEX_SIZE};
use crate::painter::{base_of, DebugView, Painter, UvView};
use crate::scene::{Handle, MeshInfo, Node, Scene};
use crate::segment::{AppMode, SegOp, SegTool, Segmentation};
use crate::text::numbered;

verus! {

/// What the engine made for the painter: nodes, meshes, materials and textures.
pub struct Parts {
    pub root: Handle,
    pub ground_node: Handle,
    pub sphere_node: Handle,
    pub cube_node: Handle,
    pub sphere: MeshInfo,
    pub cube: MeshInfo,
    pub ground: MeshInfo,
    pub paint_mat: Handle,
    pub ground_mat: Handle,
    pub albedo_tex: Handle,
    pub mr_tex: Handle,
    pub nrm_tex: Handle,
    /// The textures of the first layers, one per map.
    pub layer_tex: [Handle; 4],
}

/// The nodes at the start: under a root the ground, the sphere, and the cube, which is hidden.
pub open spec fn first_nodes(parts: Parts) -> Seq<Node> {
    seq![
        Node { handle: parts.root, parent: None, mesh: None, material: None, visible: true },
        Node {
            handle: parts.ground_node,
            parent: Some(parts.root),
            mesh: Some(parts.ground.handle),
            material: Some(parts.ground_mat),
            visible: true,
        },
        Node {
            handle: parts.sphere_node,
            parent: Some(parts.root),
            mesh: Some(parts.sphere.handle),
            material: Some(parts.paint_mat),
            visible: true,
        },
        Node {
            handle: parts.cube_node,
            parent: Some(parts.root),
            mesh: Some(parts.cube.handle),
            material: Some(parts.paint_mat),
            visible: false,
        },
    ]
}

/// The stack of a map at the start: an empty layer over the base colour.
pub open spec fn is_first_doc(d: PaintDocument, map: PaintMap, tex: Handle) -> bool {
    &&& d.width == TEX_SIZE
    &&& d.height == TEX_SIZE
    &&& d.base_rgba == crate::painter::base_color(map)
    &&& d.layers@.len() == 1
    &&& d.layers@[0].is_new_paint("Layer "@ + crate::text::decimal(1), tex)
    &&& d.active == 0
    &&& d.paint_target == crate::paint::PaintTarget::Content
    &&& d.composite_dirty
}

fn first_docs(tex: [Handle; 4]) -> (docs: Vec<PaintDocument>)
    ensures
        docs@.len() == 4,
        forall|i: int|
            0 <= i < 4 ==> is_first_doc(#[trigger] docs@[i], PaintMap::ALL@[i], tex@[i])
                && docs@[i].wf(),
{
    let mut docs: Vec<PaintDocument> = Vec::new();
    let mut i: usize = 0;
    while i < 4
        invariant
            i <= 4,
            docs@.len() == i,
            forall|k: int|
                0 <= k < i ==> is_first_doc(#[trigger] docs@[k], PaintMap::ALL@[k], tex@[k])
                    && docs@[k].wf(),
        decreases 4 - i,
    {
        let mut d = PaintDocument::new(TEX_SIZE, TEX_SIZE, base_of(PaintMap::ALL[i]));
        d.push_layer(Layer::paint(numbered("Layer ", 1), tex[i]));
        docs.push(d);
        i += 1;
    }
    docs
}

impl Painter {
    /// The painter at the start.
    pub open spec fn is_first(self, parts: Parts) -> bool {
        &&& self.scene.nodes@ == first_nodes(parts)
        &&& self.scene.meshes@ == seq![parts.sphere, parts.cube, parts.ground]
        &&& self.docs@.len() == 4
        &&& forall|i: int|
            0 <= i < 4 ==> is_first_doc(
                #[trigger] self.docs@[i],
                PaintMap::ALL@[i],
                parts.layer_tex@[i],
            )
        &&& self.paint_map == PaintMap::Albedo
        &&& self.debug_view == DebugView::Final
        &&& self.brush == crate::paint::first_brush()
        &&& self.tool == PaintTool::Paint
        &&& self.active_alpha == 0
        &&& self.active_nrm == 0
        &&& self.albedo_tex == parts.albedo_tex
        &&& self.mr_tex == parts.mr_tex
        &&& self.nrm_tex == parts.nrm_tex
        &&& self.udim_ids@ == seq![FIRST_TILE]
        &&& self.extra_albedo@.len() == 0
        &&& self.extra_mr@.len() == 0
        &&& self.extra_nrm@.len() == 0
        &&& self.paintable@ == seq![parts.sphere_node]
        &&& self.uv == (UvView { mesh_idx: 0, show_uv: true, needs_fit: true })
        &&& !self.snapping
        &&& !self.ortho_from_view
        &&& !self.painting
        &&& self.mode == AppMode::Paint
        &&& self.seg_tool == SegTool::Click
        &&& self.seg_op == SegOp::Select
        &&& !self.rect_through
        &&& self.segmentation.labels() == crate::segment::synced(
            Map::empty(),
            self.scene,
            self.paintable@,
        )
        &&& self.segmentation.segments@.len() == 1
        &&& self.segmentation.segments@[0].id == 1
        &&& self.segmentation.segments@[0].name@ == "Segment "@ + crate::text::decimal(1)
        &&& self.segmentation.segments@[0].color == crate::segment::palette(0)
        &&& self.segmentation.active == Some(1u16)
        &&& self.segmentation.next_id == 2
        &&& self.segmentation.added@ == 1
        &&& self.shape == 0
        &&& self.model_name@.len() == 0
        &&& self.status@ == "Ready · GPU brush"@
        &&& self.pending_stamps@.len() == 0
        &&& self.last_stamp_px is None
        &&& self.paint_mat == parts.paint_mat
        &&& self.sphere_node == parts.sphere_node
        &&& self.cube_node == parts.cube_node
        &&& self.model_root is None
        &&& self.needs_map_seed
        &&& self.paint_debug_view == DebugView::Final
        &&& self.rect_start is None
        &&& self.last_seg_ptr is None
        &&& self.last_seg_face is None
        &&& self.seg_overlay_dirty
    }

    /// The painter at the start: the sphere is shown and can be painted, its tree is built, and its
    /// faces are in no segment.
    pub fn new<M: BoxMath, F: Fn(Handle) -> Option<Mesh>>(
        parts: &Parts,
        math: &M,
        fetch: F,
    ) -> (p: Painter)
        requires
            forall|h: Handle| call_requires(fetch, (h,)),
            forall|h: Handle, mesh: Mesh| #[trigger]
                call_ensures(fetch, (h,), Some(mesh)) ==> crate::bvh::corners_exist(mesh)
                    && crate::bvh::tri_total(mesh) <= 0x7fff_ffff,
        ensures
            p.wf(),
            p.is_first(*parts),
            crate::pick::is_current(
                *math,
                fetch,
                p.scene,
                p.paintable@,
                Map::empty(),
                p.bvh_cache@,
            ),
    {
        let nodes: Vec<Node> = vec![
            Node { handle: parts.root, parent: None, mesh: None, material: None, visible: true },
            Node {
                handle: parts.ground_node,
                parent: Some(parts.root),
                mesh: Some(parts.ground.handle),
                material: Some(parts.ground_mat),
                visible: true,
            },
            Node {
                handle: parts.sphere_node,
                parent: Some(parts.root),
                mesh: Some(parts.sphere.handle),
                material: Some(parts.paint_mat),
                visible: true,
            },
            Node {
                handle: parts.cube_node,
                parent: Some(parts.root),
                mesh: Some(parts.cube.handle),
                material: Some(parts.paint_mat),
                visible: false,
            },
        ];
        assert(nodes@ =~= first_nodes(*parts));
        let meshes: Vec<MeshInfo> = vec![parts.sphere, parts.cube, parts.ground];
        assert(meshes@ =~= seq![parts.sphere, parts.cube, parts.ground]);
        let udim_ids: Vec<u32> = vec![FIRST_TILE];
        assert(udim_ids@ =~= seq![FIRST_TILE]);
        let paintable: Vec<Handle> = vec![parts.sphere_node];
        assert(paintable@ =~= seq![parts.sphere_node]);
        let mut p = Painter {
            scene: Scene { nodes, meshes },
            docs: first_docs(parts.layer_tex),
            paint_map: PaintMap::Albedo,
            debug_view: DebugView::Final,
            brush: Brush::default(),
            tool: PaintTool::Paint,
            active_alpha: 0,
            active_nrm: 0,
            albedo_tex: parts.albedo_tex,
            mr_tex: parts.mr_tex,
            nrm_tex: parts.nrm_tex,
            udim_ids,
            extra_albedo: Vec::new(),
            extra_mr: Vec::new(),
            extra_nrm: Vec::new(),
            paintable,
            uv: UvView::default(),
            snapping: false,
            ortho_from_view: false,
            painting: false,
            mode: AppMode::Paint,
            seg_tool: SegTool::Click,
            seg_op: SegOp::Select,
            rect_through: false,
            segmentation: Segmentation::default(),
            shape: 0,
            model_name: String::new(),
            status: String::from_str("Ready · GPU brush"),
            pending_stamps: Vec::new(),
            last_stamp_px: None,
            paint_mat: parts.paint_mat,
            sphere_node: parts.sphere_node,
            cube_node: parts.cube_node,
            model_root: None,
            bvh_cache: HashMap::new(),
            needs_map_seed: true,
            paint_debug_view: DebugView::Final,
            rect_start: None,
            last_seg_ptr: None,
            last_seg_face: None,
            seg_overlay_dirty: true,
        };
        p.rebuild_bvhs(math, fetch);
        p.segmentation.sync(&p.scene, &p.paintable);
        p
    }
}

/// At the start the sphere alone is shown and can be painted, beside the ground; nothing waits to be
/// stamped, and every map has one empty layer over its base colour, on its own texture, and still
/// has to be filled.
pub proof fn law_the_start_shows_the_sphere(p: Painter, parts: Parts, i: int)
    requires
        p.is_first(parts),
        0 <= i < 4,
    ensures
        p.paintable@ == seq![parts.sphere_node],
        p.scene.nodes@.len() == 4,
        p.scene.nodes@[2].handle == parts.sphere_node && p.scene.nodes@[2].visible,
        p.scene.nodes@[2].mesh == Some(parts.sphere.handle),
        p.scene.nodes@[3].handle == parts.cube_node && !p.scene.nodes@[3].visible,
        p.scene.nodes@[3].mesh == Some(parts.cube.handle),
        p.scene.nodes@[1].handle == parts.ground_node && p.scene.nodes@[1].visible,
        p.scene.nodes@[1].mesh == Some(parts.ground.handle),
        p.scene.nodes@[1].material == Some(parts.ground_mat),
        p.scene.nodes@[2].material == Some(parts.paint_mat) && p.scene.nodes@[3].material == Some(
            parts.paint_mat,
        ),
        i > 0 ==> p.scene.nodes@[i].parent == Some(parts.root),
        p.docs@[i].layers@.len() == 1 && p.docs@[i].layers@[0].tex == Some(parts.layer_tex@[i]),
        p.docs@[i].layers@[0].needs_clear && p.docs@[i].composite_dirty && p.needs_map_seed,
        p.docs@[i].layers@[0].opacity == 0x3f80_0000 && p.docs@[i].layers@[0].visible,
        p.udim_ids@ == seq![1001u32],
        p.pending_stamps@.len() == 0 && !p.painting && p.shape == 0 && p.model_root is None,
        p.mode == AppMode::Paint && p.tool == PaintTool::Paint && p.paint_map == PaintMap::Albedo,
        p.albedo_tex == parts.albedo_tex && p.mr_tex == parts.mr_tex && p.nrm_tex == parts.nrm_tex,
{
    assert(is_first_doc(p.docs@[i], PaintMap::ALL@[i], parts.layer_tex@[i]));
}

} // verus!
