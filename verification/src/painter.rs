//! The state of the painter, and what the buttons of the panels do to it.

use vstd::prelude::*;
use vstd::string::StringExecFns;

use crate::bits::{Rgba, ONE, ZERO};
use crate::paint::{
    flat_normal, Brush, Layer, LayerKind, PaintDocument, PaintMap, PaintTarget, PaintTool, Tile,
};
use crate::pick::BvhCache;
use crate::scene::{Handle, Scene};
use crate::segment::{AppMode, SegOp, SegTool, Segmentation};
use crate::text::numbered;
use crate::uv::Uv;

verus! {

/// The slot of the viewport among the textures of the panels.
pub const SCENE_TEX: u32 = 0;

/// The slot of the texture plane among the textures of the panels.
pub const UV_TEX: u32 = 1;

/// A point on the screen, by bit patterns.
pub type Point = [u32; 2];

/// A rectangle on the screen: its lower and its upper corner.
pub type ScreenRect = [u32; 4];

/// What the viewport shows.
#[derive(Clone, Copy, Debug, PartialEq, Eq, Structural)]
pub enum DebugView {
    Final,
    Albedo,
    Metallic,
    Roughness,
    Normals,
    Wireframe,
}

/// A stamp that waits for the next frame.
#[derive(Clone, Copy)]
pub struct PendingStamp {
    pub screen: Point,
    pub viewport: ScreenRect,
    /// How far around the pointer the stamp reaches, in pixels.
    pub screen_radius_px: u32,
    pub plane_normal: [u32; 3],
    /// The surface point under the pointer, if there is one.
    pub uv: Option<Uv>,
}

/// The view of the texture plane.
#[derive(Clone, Copy)]
pub struct UvView {
    pub mesh_idx: usize,
    pub show_uv: bool,
    pub needs_fit: bool,
}

/// The state of the painter.
pub struct Painter {
    pub scene: Scene,
    /// One layer stack per map.
    pub docs: Vec<PaintDocument>,
    pub paint_map: PaintMap,
    pub debug_view: DebugView,
    pub brush: Brush,
    pub tool: PaintTool,
    pub active_alpha: usize,
    pub active_nrm: usize,
    pub albedo_tex: Handle,
    pub mr_tex: Handle,
    pub nrm_tex: Handle,
    /// The tiles in use; the first one is held by `albedo_tex`, `mr_tex` and `nrm_tex`.
    pub udim_ids: Vec<u32>,
    pub extra_albedo: Vec<Tile>,
    pub extra_mr: Vec<Tile>,
    pub extra_nrm: Vec<Tile>,
    /// The nodes that can be painted.
    pub paintable: Vec<Handle>,
    pub uv: UvView,
    /// The camera is on its way to an axis.
    pub snapping: bool,
    /// The view went to an axis and is parallel until the next free orbit.
    pub ortho_from_view: bool,
    pub painting: bool,
    pub mode: AppMode,
    pub seg_tool: SegTool,
    pub seg_op: SegOp,
    pub rect_through: bool,
    pub segmentation: Segmentation,
    /// 0 is the sphere, 1 the cube, 2 the model.
    pub shape: usize,
    pub model_name: String,
    pub status: String,
    pub pending_stamps: Vec<PendingStamp>,
    pub last_stamp_px: Option<Point>,
    pub paint_mat: Handle,
    pub sphere_node: Handle,
    pub cube_node: Handle,
    pub model_root: Option<Handle>,
    pub bvh_cache: BvhCache,
    /// The material maps have to be filled with their base colours once.
    pub needs_map_seed: bool,
    pub paint_debug_view: DebugView,
    pub rect_start: Option<Point>,
    pub last_seg_ptr: Option<(Point, ScreenRect)>,
    pub last_seg_face: Option<(Handle, u32)>,
    pub seg_overlay_dirty: bool,
}

/// The base colour of a map: light grey, not metallic, roughness 0.45, flat.
pub open spec fn base_color(map: PaintMap) -> Rgba {
    match map {
        PaintMap::Albedo => Rgba { r: 0x3f5c_dcdd, g: 0x3f5c_dcdd, b: 0x3f61_e1e2, a: ONE },
        PaintMap::Metallic => Rgba { r: ZERO, g: ZERO, b: ZERO, a: ONE },
        PaintMap::Roughness => Rgba { r: ZERO, g: 0x3ee6_6666, b: ZERO, a: ONE },
        PaintMap::Normal => crate::paint::flat(),
    }
}

/// The base colour of a map.
pub fn base_of(map: PaintMap) -> (c: Rgba)
    ensures
        c == base_color(map),
{
    match map {
        PaintMap::Albedo => Rgba::new(0x3f5c_dcdd, 0x3f5c_dcdd, 0x3f61_e1e2, ONE),
        PaintMap::Metallic => Rgba::new(ZERO, ZERO, ZERO, ONE),
        PaintMap::Roughness => Rgba::new(ZERO, 0x3ee6_6666, ZERO, ONE),
        PaintMap::Normal => flat_normal(),
    }
}

/// The texel with which the texture of a map begins.
pub open spec fn base_texel(map: PaintMap) -> [u8; 4] {
    match map {
        PaintMap::Albedo => [220u8, 220u8, 225u8, 255u8],
        PaintMap::Metallic => [255u8, 114u8, 0u8, 255u8],
        PaintMap::Roughness => [255u8, 114u8, 0u8, 255u8],
        PaintMap::Normal => [128u8, 128u8, 255u8, 255u8],
    }
}

/// The texel with which the texture of a map begins. Metallic and roughness share a texture.
pub fn seed_texel(map: PaintMap) -> (t: [u8; 4])
    ensures
        t == base_texel(map),
{
    match map {
        PaintMap::Albedo => [220, 220, 225, 255],
        PaintMap::Metallic => [255, 114, 0, 255],
        PaintMap::Roughness => [255, 114, 0, 255],
        PaintMap::Normal => [128, 128, 255, 255],
    }
}

/// A buffer with every whole texel set to one value. Bytes behind the last whole texel stay.
pub open spec fn filled(buf: Seq<u8>, t: [u8; 4]) -> Seq<u8> {
    Seq::new(
        buf.len(),
        |i: int|
            if i < 4 * (buf.len() / 4) {
                t[i % 4]
            } else {
                buf[i]
            },
    )
}

/// Sets every texel of a buffer to one value.
pub fn fill_rgba(buf: &mut Vec<u8>, r: u8, g: u8, b: u8, a: u8)
    ensures
        final(buf)@ == filled(old(buf)@, [r, g, b, a]),
{
    let n: usize = buf.len();
    let whole: usize = n - n % 4;
    let t: [u8; 4] = [r, g, b, a];
    let mut i: usize = 0;
    while i < whole
        invariant
            i <= whole,
            whole == n - n % 4,
            n == buf@.len(),
            n == old(buf)@.len(),
            forall|k: int| 0 <= k < i ==> #[trigger] buf@[k] == t[k % 4],
            forall|k: int| i <= k < n ==> #[trigger] buf@[k] == old(buf)@[k],
        decreases whole - i,
    {
        buf.set(i, t[i % 4]);
        i += 1;
    }
    assert(whole == 4 * (n as int / 4));
    assert(buf@ =~= filled(old(buf)@, t));
}

impl Painter {
    /// There is a stack for every map, and the stacks and the segments are in order.
    pub open spec fn is_sound(self) -> bool {
        &&& self.docs@.len() == 4
        &&& forall|i: int| 0 <= i < 4 ==> (#[trigger] self.docs@[i]).wf()
        &&& self.segmentation.wf()
    }

    /// The maps and the layers have a texture for every tile in use, in the order of the tiles.
    pub open spec fn is_tiled(self) -> bool {
        &&& crate::paint::is_numbered(self.extra_albedo@, self.udim_ids@)
        &&& crate::paint::is_numbered(self.extra_mr@, self.udim_ids@)
        &&& crate::paint::is_numbered(self.extra_nrm@, self.udim_ids@)
        &&& forall|i: int|
            0 <= i < self.docs@.len() ==> (#[trigger] self.docs@[i]).is_tiled(self.udim_ids@)
    }

    /// The invariant.
    pub open spec fn wf(self) -> bool {
        &&& self.is_sound()
        &&& self.is_tiled()
    }

    /// The stack of the current map.
    pub open spec fn current_doc(self) -> PaintDocument {
        self.docs@[self.paint_map.position()]
    }

    /// The stack of the current map.
    pub fn doc(&self) -> (d: &PaintDocument)
        requires
            self.wf(),
        ensures
            *d == self.current_doc(),
    {
        &self.docs[self.paint_map.index()]
    }

    /// The stack of the current map, to be changed.
    pub fn doc_mut(&mut self) -> (d: &mut PaintDocument)
        requires
            old(self).wf(),
        ensures
            *d == old(self).current_doc(),
            final(self).docs@ == old(self).docs@.update(
                old(self).paint_map.position(),
                *final(d),
            ),
            *final(self) == (Painter { docs: final(self).docs, ..*old(self) }),
    {
        let i: usize = self.paint_map.index();
        &mut self.docs[i]
    }

    /// The node whose texture coordinates are shown.
    pub open spec fn uv_node(self) -> Option<Handle> {
        if self.uv.mesh_idx < self.paintable@.len() {
            Some(self.paintable@[self.uv.mesh_idx as int])
        } else {
            None
        }
    }

    /// The node whose texture coordinates are shown.
    pub fn uv_mesh_node(&self) -> (h: Option<Handle>)
        ensures
            h == self.uv_node(),
    {
        if self.uv.mesh_idx < self.paintable.len() {
            Some(self.paintable[self.uv.mesh_idx])
        } else {
            None
        }
    }

    /// The tiles that a stroke changes: those of the mask on a fill layer or when the mask is
    /// being painted, else those of the content.
    pub open spec fn stamp_tiles(self) -> Seq<Tile> {
        match self.current_doc().current() {
            Some(l) => if l.kind == LayerKind::Fill || self.current_doc().paint_target
                == PaintTarget::Mask {
                crate::paint::tiles_of(self.udim_ids@, l.mask, l.extra_mask@)
            } else {
                crate::paint::tiles_of(self.udim_ids@, l.tex, l.extra_tex@)
            },
            None => Seq::empty(),
        }
    }

    /// The tiles that a stroke changes.
    pub fn stamp_target_tiles(&self) -> (tiles: Vec<Tile>)
        requires
            self.wf(),
        ensures
            tiles@ == self.stamp_tiles(),
    {
        let doc = self.doc();
        match doc.active_layer() {
            Some(layer) => {
                if layer.kind == LayerKind::Fill || doc.paint_target == PaintTarget::Mask {
                    layer.mask_tiles(&self.udim_ids)
                } else {
                    layer.content_tiles(&self.udim_ids)
                }
            },
            None => Vec::new(),
        }
    }

    /// The first texture that a stroke changes.
    pub fn stamp_target_tex(&self) -> (h: Option<Handle>)
        requires
            self.wf(),
        ensures
            h == if self.stamp_tiles().len() > 0 {
                Some(self.stamp_tiles()[0].1)
            } else {
                None
            },
    {
        let tiles = self.stamp_target_tiles();
        if tiles.len() > 0 {
            Some(tiles[0].1)
        } else {
            None
        }
    }

    /// A stroke changes a mask.
    pub open spec fn strokes_mask(self) -> bool {
        match self.current_doc().current() {
            Some(l) => (l.kind == LayerKind::Fill || self.current_doc().paint_target
                == PaintTarget::Mask) && l.mask is Some,
            None => false,
        }
    }

    /// Whether a stroke changes a mask.
    pub fn painting_mask(&self) -> (r: bool)
        requires
            self.wf(),
        ensures
            r == self.strokes_mask(),
    {
        let doc = self.doc();
        match doc.active_layer() {
            Some(layer) => (layer.kind == LayerKind::Fill || doc.paint_target == PaintTarget::Mask)
                && layer.mask.is_some(),
            None => false,
        }
    }

    /// The brush for the current target.
    pub open spec fn brush_for_target(self, luma: u32) -> Brush {
        if self.strokes_mask() || self.paint_map is Metallic || self.paint_map is Roughness {
            Brush { color: Rgba { r: luma, g: luma, b: luma, a: ONE }, ..self.brush }
        } else {
            self.brush
        }
    }

    /// The brush for the current target. A mask and the maps that hold one number take the
    /// brightness of the colour.
    pub fn stamp_brush(&self, luma: u32) -> (b: Brush)
        requires
            self.wf(),
        ensures
            b == self.brush_for_target(luma),
    {
        let grey = self.painting_mask() || match self.paint_map {
            PaintMap::Albedo => false,
            PaintMap::Normal => false,
            PaintMap::Metallic => true,
            PaintMap::Roughness => true,
        };
        if grey {
            Brush {
                color: Rgba::grey(luma),
                radius: self.brush.radius,
                hardness: self.brush.hardness,
                opacity: self.brush.opacity,
                spacing: self.brush.spacing,
            }
        } else {
            self.brush
        }
    }

    /// How many textures a layer or a mask takes: one per tile.
    pub open spec fn tiles_wanted(self) -> nat {
        crate::paint::tile_count(self.udim_ids@)
    }

    /// How many textures a layer or a mask takes.
    pub fn textures_per_layer(&self) -> (n: usize)
        ensures
            n == self.tiles_wanted(),
    {
        let n: usize = self.udim_ids.len();
        if n == 0 {
            1
        } else {
            n
        }
    }

    /// New textures for the tiles after the first.
    pub open spec fn extra_tiles(self, fresh: Seq<Handle>) -> Seq<Tile> {
        Seq::new(
            (self.tiles_wanted() - 1) as nat,
            |i: int| (self.udim_ids@[i + 1], fresh[i + 1]),
        )
    }

    fn tiles_from(&self, fresh: &Vec<Handle>) -> (extra: Vec<Tile>)
        requires
            fresh@.len() == self.tiles_wanted(),
        ensures
            extra@ == self.extra_tiles(fresh@),
    {
        let mut extra: Vec<Tile> = Vec::new();
        let mut i: usize = 1;
        while i < fresh.len()
            invariant
                1 <= i <= fresh@.len(),
                fresh@.len() == self.tiles_wanted(),
                extra@ =~= self.extra_tiles(fresh@).take(i - 1),
            decreases fresh@.len() - i,
        {
            extra.push((self.udim_ids[i], fresh[i]));
            i += 1;
        }
        assert(extra@ =~= self.extra_tiles(fresh@));
        extra
    }

    /// A new paint layer over new textures.
    pub open spec fn is_new_layer(self, l: Layer, name: Seq<char>, fresh: Seq<Handle>) -> bool {
        &&& l.extra_tex@ == self.extra_tiles(fresh)
        &&& l.name@ == name
        &&& l.visible
        &&& l.opacity == ONE
        &&& l.kind == LayerKind::Paint
        &&& l.fill == (Rgba { r: ONE, g: ONE, b: ONE, a: ONE })
        &&& l.tex == Some(fresh[0])
        &&& l.mask is None
        &&& l.extra_mask@ == Seq::<Tile>::empty()
        &&& l.needs_clear
        &&& l.mask_init is None
    }

    pub(crate) fn new_paint_layer(&self, name: String, fresh: &Vec<Handle>) -> (l: Layer)
        requires
            fresh@.len() == self.tiles_wanted(),
        ensures
            self.is_new_layer(l, name@, fresh@),
    {
        let extra = self.tiles_from(fresh);
        let mut l = Layer::paint(name, fresh[0]);
        l.extra_tex = extra;
        l
    }

    /// Adds a paint layer to the current stack.
    pub fn add_layer(&mut self, fresh: Vec<Handle>)
        requires
            old(self).wf(),
            fresh@.len() == old(self).tiles_wanted(),
        ensures
            final(self).wf(),
            only_current_doc(*old(self), *final(self)),
            layer_added(*old(self), *final(self), fresh@),
    {
        let n: usize = self.doc().layers.len();
        let layer = self.new_paint_layer(numbered("Layer ", n as u128 + 1), &fresh);
        let ghost before = self.current_doc();
        let d = self.doc_mut();
        d.push_layer(layer);
        proof {
            assert(self.current_doc().layers@.drop_last() =~= before.layers@);
        }
    }

    /// Adds a fill layer to the current stack: with the colour of the brush, a flat normal, or
    /// the brightness of the colour, after the map.
    pub fn add_fill_layer(&mut self, luma: u32)
        requires
            old(self).wf(),
        ensures
            final(self).wf(),
            only_current_doc(*old(self), *final(self)),
            fill_added(*old(self), *final(self), luma),
    {
        let color: Rgba = match self.paint_map {
            PaintMap::Albedo => self.brush.color,
            PaintMap::Normal => flat_normal(),
            PaintMap::Metallic => Rgba::grey(luma),
            PaintMap::Roughness => Rgba::grey(luma),
        };
        let n: usize = self.doc().count_fills();
        let layer = Layer::fill(numbered("Fill ", n as u128 + 1), color);
        let ghost before = self.current_doc();
        let d = self.doc_mut();
        d.push_layer(layer);
        proof {
            assert(self.current_doc().layers@.drop_last() =~= before.layers@);
        }
    }

    /// The mask of a layer of the current stack is missing.
    pub open spec fn lacks_mask(self, i: int) -> bool {
        let d = self.current_doc();
        0 <= i < d.layers@.len() && d.layers@[i].mask is None
    }

    /// Whether the mask of a layer of the current stack is missing, so that textures are needed to
    /// select it.
    pub fn wants_mask(&self, i: usize) -> (r: bool)
        requires
            self.wf(),
        ensures
            r == self.lacks_mask(i as int),
    {
        let d = self.doc();
        i < d.layers.len() && d.layers[i].mask.is_none()
    }

    /// Selects the mask of a layer for painting. A layer without a mask gets one, of new textures.
    pub fn add_mask_to(&mut self, i: usize, fresh: Vec<Handle>)
        requires
            old(self).wf(),
            old(self).lacks_mask(i as int) ==> fresh@.len() == old(self).tiles_wanted(),
        ensures
            final(self).wf(),
            only_current_doc(*old(self), *final(self)),
            mask_selected(*old(self), *final(self), i as int, fresh@),
    {
        let wanted = self.wants_mask(i);
        if wanted {
            let extra = self.tiles_from(&fresh);
            let d = self.doc_mut();
            let _ = d.add_mask_to(i, fresh[0], extra);
        } else {
            let d = self.doc_mut();
            if i < d.layers.len() {
                d.active = i;
                d.paint_target = PaintTarget::Mask;
            }
        }
    }

    /// Switches between the content and the mask of a layer. A layer without a mask gets one, of
    /// new textures.
    pub fn toggle_mask_target(&mut self, i: usize, fresh: Vec<Handle>)
        requires
            old(self).wf(),
            old(self).lacks_mask(i as int) ==> fresh@.len() == old(self).tiles_wanted(),
        ensures
            final(self).wf(),
            only_current_doc(*old(self), *final(self)),
            mask_toggled(*old(self), *final(self), i as int, fresh@),
    {
        let d = self.doc();
        if i < d.layers.len() && d.layers[i].mask.is_some() && d.active == i && d.paint_target
            == PaintTarget::Mask {
            let d = self.doc_mut();
            d.paint_target = PaintTarget::Content;
        } else {
            self.add_mask_to(i, fresh);
        }
    }

    /// Deletes what is being painted: the mask of the active layer, or the layer. The textures
    /// come back.
    pub fn remove_active_layer(&mut self) -> (freed: Vec<Handle>)
        requires
            old(self).wf(),
        ensures
            final(self).wf(),
            only_current_doc(*old(self), *final(self)),
            layer_removed(old(self).current_doc(), final(self).current_doc(), freed@),
    {
        let d = self.doc_mut();
        d.remove_active_layer()
    }

    /// Clears what is being painted: the mask of the active layer, or a paint layer.
    pub fn clear_active_layer(&mut self)
        requires
            old(self).wf(),
        ensures
            final(self).wf(),
            only_current_doc(*old(self), *final(self)),
            layer_cleared(old(self).current_doc(), final(self).current_doc()),
    {
        let d = self.doc_mut();
        d.clear_active_layer();
    }
}

/// The stacks are in order, and have their textures for every tile.
pub open spec fn are_in_order(docs: Seq<PaintDocument>, ids: Seq<u32>) -> bool {
    forall|i: int|
        0 <= i < docs.len() ==> (#[trigger] docs[i]).wf() && docs[i].is_tiled(ids)
}

/// Nothing but the stack of the current map changed.
pub open spec fn only_current_doc(before: Painter, after: Painter) -> bool {
    &&& after == (Painter { docs: after.docs, ..before })
    &&& after.docs@ == before.docs@.update(before.paint_map.position(), after.current_doc())
}

/// A paint layer of new textures was put on top and is the active one.
pub open spec fn layer_added(before: Painter, after: Painter, fresh: Seq<Handle>) -> bool {
    let d0 = before.current_doc();
    let d1 = after.current_doc();
    &&& d1.layers@.len() == d0.layers@.len() + 1
    &&& d1.layers@.drop_last() == d0.layers@
    &&& before.is_new_layer(
        d1.layers@.last(),
        "Layer "@ + crate::text::decimal(d0.layers@.len() + 1),
        fresh,
    )
    &&& d1.active == d0.layers@.len()
    &&& d1.paint_target == PaintTarget::Content
    &&& d1.composite_dirty
    &&& d1.same_frame(d0)
}

/// A fill layer was put on top and is the active one.
pub open spec fn fill_added(before: Painter, after: Painter, luma: u32) -> bool {
    let d0 = before.current_doc();
    let d1 = after.current_doc();
    &&& d1.layers@.len() == d0.layers@.len() + 1
    &&& d1.layers@.drop_last() == d0.layers@
    &&& d1.layers@.last().is_new_fill(
        "Fill "@ + crate::text::decimal(crate::layers::fill_count(d0.layers@) + 1),
        match before.paint_map {
            PaintMap::Albedo => before.brush.color,
            PaintMap::Normal => crate::paint::flat(),
            PaintMap::Metallic => Rgba { r: luma, g: luma, b: luma, a: ONE },
            PaintMap::Roughness => Rgba { r: luma, g: luma, b: luma, a: ONE },
        },
    )
    &&& d1.active == d0.layers@.len()
    &&& d1.paint_target == PaintTarget::Content
    &&& d1.composite_dirty
    &&& d1.same_frame(d0)
}

/// The content and the mask of a layer changed places as what is painted: a mask that was being
/// painted is left, any other is selected.
pub open spec fn mask_toggled(before: Painter, after: Painter, i: int, fresh: Seq<Handle>) -> bool {
    let d0 = before.current_doc();
    if d0.active == i && d0.targets_mask() {
        after.current_doc() == (PaintDocument { paint_target: PaintTarget::Content, ..d0 })
    } else {
        mask_selected(before, after, i, fresh)
    }
}

/// The mask of a layer was selected; if it was missing, it was made of new textures. A layer that
/// does not exist is ignored.
pub open spec fn mask_selected(before: Painter, after: Painter, i: int, fresh: Seq<Handle>) -> bool {
    let d0 = before.current_doc();
    let d1 = after.current_doc();
    if !(0 <= i < d0.layers@.len()) {
        d1 == d0
    } else if d0.layers@[i].mask is Some {
        d1 == (PaintDocument { active: i as usize, paint_target: PaintTarget::Mask, ..d0 })
    } else {
        &&& d1.differs_at(d0, i)
        &&& crate::layers::masked(
            d0.layers@[i],
            d1.layers@[i],
            fresh[0],
            before.extra_tiles(fresh),
        )
        &&& d1.active == i
        &&& d1.paint_target == PaintTarget::Mask
        &&& d1.composite_dirty
        &&& d1.same_frame(d0)
    }
}

/// What was being painted is gone: the mask of the active layer, or the layer; the last layer is
/// only cleared.
pub open spec fn layer_removed(d0: PaintDocument, d1: PaintDocument, freed: Seq<Handle>) -> bool {
    let at = d0.active as int;
    &&& d1.same_frame(d0)
    &&& d1.paint_target == PaintTarget::Content
    &&& d1.composite_dirty
    &&& if d0.targets_mask() {
        &&& d1.differs_at(d0, at)
        &&& crate::layers::unmasked(d0.layers@[at], d1.layers@[at])
        &&& d1.active == at
        &&& freed == crate::layers::mask_textures(d0.layers@[at])
    } else if d0.layers@.len() <= 1 {
        &&& d1.layers@.len() == d0.layers@.len()
        &&& d0.layers@.len() == 1 ==> d1.layers@[0] == (Layer {
            needs_clear: d0.layers@[0].needs_clear || d0.layers@[0].kind == LayerKind::Paint,
            ..d0.layers@[0]
        })
        &&& d1.active == at
        &&& freed.len() == 0
    } else {
        &&& d1.layers@ == d0.layers@.remove(at)
        &&& d1.active == if at < d0.layers@.len() - 1 {
            at
        } else {
            d0.layers@.len() - 2
        }
        &&& freed == d0.layers@[at].all_textures()
    }
}

/// What was being painted is to be cleared: the mask of the active layer, or a paint layer.
pub open spec fn layer_cleared(d0: PaintDocument, d1: PaintDocument) -> bool {
    let at = d0.active as int;
    &&& d1.same_frame(d0)
    &&& d1.active == at
    &&& d1.paint_target == d0.paint_target
    &&& d1.composite_dirty
    &&& d1.differs_at(d0, at)
    &&& at < d0.layers@.len() ==> d1.layers@[at] == if d0.targets_mask() {
        Layer {
            mask_init: Some(crate::layers::mask_fill(d0.layers@[at].kind)),
            ..d0.layers@[at]
        }
    } else if d0.layers@[at].kind == LayerKind::Paint {
        Layer { needs_clear: true, ..d0.layers@[at] }
    } else {
        d0.layers@[at]
    }
}

/// Clearing changes one thing: while a mask is painted, the mask begins anew, white on a painted
/// layer and black on a filled one; else a painted layer is to be made transparent, and a filled
/// one stays. No layer, texture, name, filling or setting goes.
pub proof fn law_clearing_starts_anew(d0: PaintDocument, d1: PaintDocument, i: int)
    requires
        layer_cleared(d0, d1),
        0 <= i < d0.layers@.len(),
    ensures
        ({
            let a = d0.layers@[i];
            let b = d1.layers@[i];
            let here = i == d0.active;
            let mask = d0.paint_target == PaintTarget::Mask && a.mask is Some;
            &&& d1.layers@.len() == d0.layers@.len()
            &&& !here ==> b == a
            &&& here && mask && a.kind == LayerKind::Paint ==> b.mask_init == Some(
                [255u8, 255, 255, 255],
            )
            &&& here && mask && a.kind == LayerKind::Fill ==> b.mask_init == Some(
                [0u8, 0, 0, 255],
            )
            &&& here && mask ==> b.needs_clear == a.needs_clear
            &&& here && !mask ==> b.mask_init == a.mask_init && b.needs_clear == (a.needs_clear
                || a.kind == LayerKind::Paint)
            &&& b.all_textures() == a.all_textures() && b.name == a.name && b.visible == a.visible
            &&& b.opacity == a.opacity && b.kind == a.kind && b.fill == a.fill
            &&& d1.active == d0.active && d1.paint_target == d0.paint_target
            &&& d1.composite_dirty
        }),
{
}

/// A layer that was added is on top, active, visible and opaque; the layers below are as they were,
/// in their order. A painted one waits to be made transparent.
pub proof fn law_new_layers_are_on_top(
    before: Painter,
    after: Painter,
    fresh: Seq<Handle>,
    luma: u32,
    i: int,
)
    requires
        layer_added(before, after, fresh) || fill_added(before, after, luma),
        0 <= i < before.current_doc().layers@.len(),
    ensures
        ({
            let d0 = before.current_doc();
            let d1 = after.current_doc();
            let top = d1.layers@[d0.layers@.len() as int];
            &&& d1.layers@.len() == d0.layers@.len() + 1
            &&& d1.layers@[i] == d0.layers@[i]
            &&& d1.active == d0.layers@.len()
            &&& d1.paint_target == PaintTarget::Content
            &&& d1.composite_dirty
            &&& top.visible
            &&& top.opacity == 0x3f80_0000
            &&& top.mask is None && top.extra_mask@.len() == 0 && top.mask_init is None
            &&& top.needs_clear == (top.kind == LayerKind::Paint)
            &&& layer_added(before, after, fresh) ==> top.kind == LayerKind::Paint && top.tex
                == Some(fresh[0])
            &&& fill_added(before, after, luma) ==> top.kind == LayerKind::Fill && top.tex is None
                && top.extra_tex@.len() == 0
        }),
{
    let d0 = before.current_doc();
    let d1 = after.current_doc();
    assert(d1.layers@.drop_last()[i] == d1.layers@[i]);
    assert(d1.layers@.last() == d1.layers@[d0.layers@.len() as int]);
}

/// A new filling has the colour of the brush, a flat normal on the normal map, and on the maps of
/// numbers the same brightness in every channel.
pub proof fn law_new_fillings_suit_the_map(before: Painter, after: Painter, luma: u32)
    requires
        fill_added(before, after, luma),
    ensures
        ({
            let fill = after.current_doc().layers@.last().fill;
            &&& before.paint_map is Albedo ==> fill == before.brush.color
            &&& before.paint_map is Normal ==> fill.r == 0x3f00_8081 && fill.g == 0x3f00_8081
                && fill.b == 0x3f80_0000 && fill.a == 0x3f80_0000
            &&& before.paint_map is Metallic || before.paint_map is Roughness ==> fill.r == luma
                && fill.g == luma && fill.b == luma && fill.a == 0x3f80_0000
        }),
{
}

/// A new layer has one of the new textures for every tile, in the order of the tiles.
pub proof fn law_new_layers_have_every_tile(p: Painter, l: Layer, name: Seq<char>, fresh: Seq<Handle>, i: int)
    requires
        p.is_new_layer(l, name, fresh),
        fresh.len() == p.tiles_wanted(),
        0 <= i < p.udim_ids@.len(),
    ensures
        l.tex == Some(fresh[0]),
        i > 0 ==> l.extra_tex@[i - 1].0 == p.udim_ids@[i] && l.extra_tex@[i - 1].1 == fresh[i],
        l.extra_tex@.len() == p.udim_ids@.len() - 1,
        l.name@ == name,
{
}

/// What is deleted: the mask that is painted, else the active layer, unless it is the only one,
/// which is to be made transparent if it is painted. All other layers stay, in their order, and
/// exactly the textures of what is gone come back.
pub proof fn law_deleting_takes_what_is_painted(
    d0: PaintDocument,
    d1: PaintDocument,
    freed: Seq<Handle>,
    i: int,
)
    requires
        d0.wf(),
        layer_removed(d0, d1, freed),
        0 <= i < d0.layers@.len(),
    ensures
        ({
            let at = d0.active as int;
            let a = d0.layers@[at];
            let mask = d0.paint_target == PaintTarget::Mask;
            &&& d1.paint_target == PaintTarget::Content
            &&& d1.composite_dirty
            &&& mask ==> d1.layers@.len() == d0.layers@.len() && (i != at ==> d1.layers@[i]
                == d0.layers@[i]) && d1.layers@[at].mask is None && d1.layers@[at].tex == a.tex
                && d1.active == d0.active && freed == crate::paint::as_list(a.mask)
                + crate::paint::textures(a.extra_mask@)
            &&& !mask && d0.layers@.len() == 1 ==> d1.layers@.len() == 1 && freed.len() == 0
                && d1.layers@[0].all_textures() == a.all_textures() && d1.layers@[0].needs_clear
                == (a.needs_clear || a.kind == LayerKind::Paint)
            &&& !mask && d0.layers@.len() > 1 ==> d1.layers@.len() == d0.layers@.len() - 1
                && freed == a.all_textures() && (i < at ==> d1.layers@[i] == d0.layers@[i]) && (i
                > at ==> d1.layers@[i - 1] == d0.layers@[i])
            &&& !mask && d0.layers@.len() > 1 && at + 1 < d0.layers@.len() ==> d1.active == at
            &&& !mask && d0.layers@.len() > 1 && at + 1 == d0.layers@.len() ==> d1.active == at - 1
        }),
{
}

/// The brush keeps its radius, hardness, opacity and spacing for every target. It keeps its colour
/// too, unless a mask or a map of numbers is painted: there every channel holds the brightness.
pub proof fn law_the_brush_suits_its_target(p: Painter, luma: u32)
    ensures
        ({
            let b = p.brush_for_target(luma);
            let d = p.docs@[p.paint_map.position()];
            let l = d.layers@[d.active as int];
            let mask = d.active < d.layers@.len() && l.mask is Some && (l.kind == LayerKind::Fill
                || d.paint_target == PaintTarget::Mask);
            let number = p.paint_map is Metallic || p.paint_map is Roughness;
            &&& b.radius == p.brush.radius && b.hardness == p.brush.hardness
            &&& b.opacity == p.brush.opacity && b.spacing == p.brush.spacing
            &&& !mask && !number ==> b.color == p.brush.color
            &&& mask || number ==> b.color.r == luma && b.color.g == luma && b.color.b == luma
                && b.color.a == 0x3f80_0000
        }),
{
}

/// Selecting a mask makes its layer active and leaves all other layers as they were. A mask that
/// was missing is made of the new textures, one per tile, and what the layer held before stays.
pub proof fn law_a_selected_mask_is_painted(
    before: Painter,
    after: Painter,
    i: int,
    fresh: Seq<Handle>,
    k: int,
)
    requires
        mask_selected(before, after, i, fresh),
        0 <= i < before.current_doc().layers@.len(),
        i <= usize::MAX,
        0 <= k < before.current_doc().layers@.len(),
    ensures
        ({
            let d0 = before.current_doc();
            let d1 = after.current_doc();
            let a = d0.layers@[i];
            let b = d1.layers@[i];
            &&& d1.active == i && d1.paint_target == PaintTarget::Mask
            &&& d1.layers@.len() == d0.layers@.len()
            &&& k != i ==> d1.layers@[k] == d0.layers@[k]
            &&& a.mask is Some ==> b == a
            &&& a.mask is None ==> {
                &&& b.mask == Some(fresh[0])
                &&& b.extra_mask@.len() == before.tiles_wanted() - 1
                &&& forall|j: int|
                    0 < j < before.tiles_wanted() ==> b.extra_mask@[j - 1] == (
                        before.udim_ids@[j],
                        #[trigger] fresh[j],
                    )
                &&& b.tex == a.tex && b.extra_tex == a.extra_tex && b.name == a.name
                &&& b.opacity == a.opacity && b.visible == a.visible && b.kind == a.kind
                &&& b.fill == a.fill && b.needs_clear == a.needs_clear
                &&& d1.composite_dirty
            }
        }),
{
}

/// To switch a mask off leaves the layers as they are and goes back to the content; to switch it
/// on selects it.
pub proof fn law_masks_are_switched(before: Painter, after: Painter, i: int, fresh: Seq<Handle>)
    requires
        before.wf(),
        mask_toggled(before, after, i, fresh),
        0 <= i < before.current_doc().layers@.len(),
        i <= usize::MAX,
    ensures
        ({
            let d0 = before.current_doc();
            let d1 = after.current_doc();
            let was = d0.active == i && d0.paint_target == PaintTarget::Mask;
            &&& d1.active == i
            &&& was ==> d1.paint_target == PaintTarget::Content && d1.layers == d0.layers
            &&& !was ==> d1.paint_target == PaintTarget::Mask && d1.layers@[i].mask is Some
        }),
{
    let d0 = before.current_doc();
    assert(before.docs@[before.paint_map.position()].wf());
}

/// Every whole texel of a filled buffer holds the four given bytes in their order.
pub proof fn law_filled_texels_hold_the_colour(buf: Seq<u8>, t: [u8; 4], texel: int)
    requires
        0 <= texel,
        4 * texel + 3 < buf.len(),
    ensures
        filled(buf, t).len() == buf.len(),
        filled(buf, t)[4 * texel] == t[0],
        filled(buf, t)[4 * texel + 1] == t[1],
        filled(buf, t)[4 * texel + 2] == t[2],
        filled(buf, t)[4 * texel + 3] == t[3],
{
    assert((4 * texel) % 4 == 0 && (4 * texel + 1) % 4 == 1);
    assert((4 * texel + 2) % 4 == 2 && (4 * texel + 3) % 4 == 3);
}

/// The texture plane shows a node that can be painted, the one that was chosen, or none where there
/// are fewer.
pub proof fn law_the_plane_shows_a_painted_node(p: Painter)
    ensures
        p.uv_node() is Some ==> p.paintable@.contains(p.uv_node()->0),
        p.uv_node() is None <==> p.uv.mesh_idx >= p.paintable@.len(),
        forall|i: int|
            0 <= i < p.paintable@.len() && i == p.uv.mesh_idx ==> p.uv_node() == Some(
                #[trigger] p.paintable@[i],
            ),
{
    if p.uv_node() is Some {
        assert(p.paintable@[p.uv.mesh_idx as int] == p.uv_node()->0);
    }
}

} // verus!
