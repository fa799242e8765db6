//! What a frame does about the textures: which are filled, stamped and put together again, as far
//! as they have reached the device.

use vstd::prelude::*;

use crate::bits::{less, Rgba};
use crate::brush_alpha::BrushAlpha;
use crate::paint::{Layer, LayerKind, PaintDocument, PaintMap, PaintTarget, PaintTool, Tile};
use crate::painter::{Painter, PendingStamp};
use crate::scene::{contains_handle, Handle};

verus! {

/// A layer below this opacity is left out: 0.001.
pub const FAINT: u32 = 0x3a83_126f;

/// A texture that is filled with one texel.
#[derive(Clone, Copy, Debug, PartialEq, Eq)]
pub struct Filling {
    pub texture: Handle,
    pub texel: [u8; 4],
}

/// All textures of a list are on the device.
pub open spec fn all_resident(list: Seq<Handle>, resident: Seq<Handle>) -> bool {
    forall|i: int| 0 <= i < list.len() ==> resident.contains(#[trigger] list[i])
}

fn are_resident(list: &Vec<Handle>, resident: &Vec<Handle>) -> (r: bool)
    ensures
        r == all_resident(list@, resident@),
{
    let mut i: usize = 0;
    while i < list.len()
        invariant
            i <= list@.len(),
            forall|k: int| 0 <= k < i ==> resident@.contains(#[trigger] list@[k]),
        decreases list@.len() - i,
    {
        if !contains_handle(resident, list[i]) {
            return false;
        }
        i += 1;
    }
    true
}

/// The tiles of a list whose textures are on the device.
pub open spec fn at_hand(tiles: Seq<Tile>, resident: Seq<Handle>) -> Seq<Tile>
    decreases tiles.len(),
{
    if tiles.len() == 0 {
        Seq::empty()
    } else if resident.contains(tiles.last().1) {
        at_hand(tiles.drop_last(), resident).push(tiles.last())
    } else {
        at_hand(tiles.drop_last(), resident)
    }
}

fn tiles_at_hand(tiles: &Vec<Tile>, resident: &Vec<Handle>) -> (out: Vec<Tile>)
    ensures
        out@ == at_hand(tiles@, resident@),
{
    let mut out: Vec<Tile> = Vec::new();
    let mut i: usize = 0;
    assert(at_hand(tiles@.take(0), resident@) =~= Seq::empty());
    while i < tiles.len()
        invariant
            i <= tiles@.len(),
            out@ == at_hand(tiles@.take(i as int), resident@),
        decreases tiles@.len() - i,
    {
        assert(tiles@.take(i + 1).drop_last() =~= tiles@.take(i as int));
        if contains_handle(resident, tiles[i].1) {
            out.push(tiles[i]);
        }
        i += 1;
    }
    assert(tiles@.take(i as int) =~= tiles@);
    out
}

/// How many tiles come before the first one whose texture is not on the device.
pub open spec fn ready_count(tiles: Seq<Tile>, resident: Seq<Handle>) -> nat
    decreases tiles.len(),
{
    if tiles.len() == 0 || !resident.contains(tiles[0].1) {
        0
    } else {
        1 + ready_count(tiles.skip(1), resident)
    }
}

proof fn lemma_ready_count(tiles: Seq<Tile>, resident: Seq<Handle>, n: int)
    requires
        0 <= n <= tiles.len(),
        forall|k: int| 0 <= k < n ==> resident.contains((#[trigger] tiles[k]).1),
        n < tiles.len() ==> !resident.contains(tiles[n].1),
    ensures
        ready_count(tiles, resident) == n,
    decreases n,
{
    if n > 0 {
        assert(resident.contains(tiles[0].1));
        let rest = tiles.skip(1);
        assert forall|k: int| 0 <= k < n - 1 implies resident.contains((#[trigger] rest[k]).1) by {
            assert(rest[k] == tiles[k + 1]);
        }
        if n < tiles.len() {
            assert(rest[n - 1] == tiles[n]);
        }
        lemma_ready_count(rest, resident, n - 1);
    }
}

/// What a list of tiles that have to be filled comes to: the tiles before the first one that is
/// not on the device are filled.
pub open spec fn fillings(tiles: Seq<Tile>, texel: [u8; 4], resident: Seq<Handle>) -> Seq<Filling> {
    Seq::new(
        ready_count(tiles, resident),
        |k: int| Filling { texture: tiles[k].1, texel },
    )
}

/// All tiles could be filled.
pub open spec fn all_filled(tiles: Seq<Tile>, resident: Seq<Handle>) -> bool {
    ready_count(tiles, resident) == tiles.len()
}

fn fill_tiles(
    out: &mut Vec<Filling>,
    tiles: &Vec<Tile>,
    texel: [u8; 4],
    resident: &Vec<Handle>,
) -> (done: bool)
    ensures
        final(out)@ == old(out)@ + fillings(tiles@, texel, resident@),
        done == all_filled(tiles@, resident@),
{
    let mut i: usize = 0;
    while i < tiles.len()
        invariant
            i <= tiles@.len(),
            forall|k: int| 0 <= k < i ==> resident@.contains((#[trigger] tiles@[k]).1),
            out@ =~= old(out)@ + Seq::new(
                i as nat,
                |k: int| Filling { texture: tiles@[k].1, texel },
            ),
        decreases tiles@.len() - i,
    {
        if !contains_handle(resident, tiles[i].1) {
            proof {
                lemma_ready_count(tiles@, resident@, i as int);
            }
            return false;
        }
        out.push(Filling { texture: tiles[i].1, texel });
        i += 1;
    }
    proof {
        lemma_ready_count(tiles@, resident@, i as int);
    }
    true
}

impl Layer {
    /// The tiles that hold the content.
    pub open spec fn content(self, ids: Seq<u32>) -> Seq<Tile> {
        crate::paint::tiles_of(ids, self.tex, self.extra_tex@)
    }

    /// The tiles that hold the mask.
    pub open spec fn mask_parts(self, ids: Seq<u32>) -> Seq<Tile> {
        crate::paint::tiles_of(ids, self.mask, self.extra_mask@)
    }

    /// The layer after what it waits for was done, as far as it could be: a layer that waits to
    /// be cleared, or a mask to be filled, waits on until all its tiles are on the device.
    pub open spec fn prepared(self, ids: Seq<u32>, resident: Seq<Handle>) -> Layer {
        Layer {
            needs_clear: self.needs_clear && !all_filled(self.content(ids), resident),
            mask_init: if all_filled(self.mask_parts(ids), resident) {
                None
            } else {
                self.mask_init
            },
            ..self
        }
    }

    /// The layer waits for something, and has textures.
    pub open spec fn is_touched(self, ids: Seq<u32>) -> bool {
        ||| self.needs_clear && self.content(ids).len() > 0
        ||| self.mask_init is Some && self.mask_parts(ids).len() > 0
    }

    /// The textures that are filled for a layer.
    pub open spec fn own_fillings(self, ids: Seq<u32>, resident: Seq<Handle>) -> Seq<Filling> {
        let clear = if self.needs_clear {
            fillings(self.content(ids), [0u8, 0, 0, 0], resident)
        } else {
            Seq::empty()
        };
        match self.mask_init {
            Some(texel) => clear + fillings(self.mask_parts(ids), texel, resident),
            None => clear,
        }
    }
}

/// The textures that are filled for a stack.
pub open spec fn stack_fillings(
    layers: Seq<Layer>,
    ids: Seq<u32>,
    resident: Seq<Handle>,
) -> Seq<Filling>
    decreases layers.len(),
{
    if layers.len() == 0 {
        Seq::empty()
    } else {
        stack_fillings(layers.drop_last(), ids, resident) + layers.last().own_fillings(
            ids,
            resident,
        )
    }
}

/// Some layer of a stack waits for something, and has textures.
pub open spec fn is_stack_touched(layers: Seq<Layer>, ids: Seq<u32>) -> bool {
    exists|i: int| 0 <= i < layers.len() && (#[trigger] layers[i]).is_touched(ids)
}

/// A stack after what its layers wait for was done, as far as it could be.
pub open spec fn is_prepared(
    d0: PaintDocument,
    d1: PaintDocument,
    ids: Seq<u32>,
    resident: Seq<Handle>,
) -> bool {
    &&& d1.layers@.len() == d0.layers@.len()
    &&& forall|i: int|
        0 <= i < d0.layers@.len() ==> #[trigger] d1.layers@[i] == d0.layers@[i].prepared(
            ids,
            resident,
        )
    &&& d1 == PaintDocument {
        layers: d1.layers,
        composite_dirty: d0.composite_dirty || is_stack_touched(d0.layers@, ids),
        ..d0
    }
}

/// The textures that are filled for some stacks.
pub open spec fn docs_fillings(
    docs: Seq<PaintDocument>,
    ids: Seq<u32>,
    resident: Seq<Handle>,
) -> Seq<Filling>
    decreases docs.len(),
{
    if docs.len() == 0 {
        Seq::empty()
    } else {
        docs_fillings(docs.drop_last(), ids, resident) + stack_fillings(
            docs.last().layers@,
            ids,
            resident,
        )
    }
}

fn prepare_layer(
    l: &mut Layer,
    ids: &Vec<u32>,
    resident: &Vec<Handle>,
    out: &mut Vec<Filling>,
) -> (touched: bool)
    ensures
        *final(l) == old(l).prepared(ids@, resident@),
        final(out)@ == old(out)@ + old(l).own_fillings(ids@, resident@),
        touched == old(l).is_touched(ids@),
{
    let ghost start = out@;
    let content = l.content_tiles(ids);
    let mask = l.mask_tiles(ids);
    let mut touched = false;
    if l.needs_clear {
        touched = content.len() > 0;
        let done = fill_tiles(out, &content, [0, 0, 0, 0], resident);
        l.needs_clear = !done;
    }
    match l.mask_init {
        Some(texel) => {
            if mask.len() > 0 {
                touched = true;
            }
            if fill_tiles(out, &mask, texel, resident) {
                l.mask_init = None;
            }
        },
        None => {},
    }
    assert(out@ =~= start + old(l).own_fillings(ids@, resident@));
    touched
}

fn prepare_stack(
    d: &mut PaintDocument,
    ids: &Vec<u32>,
    resident: &Vec<Handle>,
    out: &mut Vec<Filling>,
)
    ensures
        is_prepared(*old(d), *final(d), ids@, resident@),
        final(out)@ == old(out)@ + stack_fillings(old(d).layers@, ids@, resident@),
{
    let ghost d0 = *d;
    let ghost start = out@;
    let mut i: usize = 0;
    assert(stack_fillings(d0.layers@.take(0), ids@, resident@) =~= Seq::empty());
    while i < d.layers.len()
        invariant
            i <= d.layers@.len(),
            d.layers@.len() == d0.layers@.len(),
            forall|k: int|
                0 <= k < i ==> #[trigger] d.layers@[k] == d0.layers@[k].prepared(
                    ids@,
                    resident@,
                ),
            forall|k: int| i <= k < d.layers@.len() ==> #[trigger] d.layers@[k] == d0.layers@[k],
            *d == (PaintDocument {
                layers: d.layers,
                composite_dirty: d0.composite_dirty || is_stack_touched(
                    d0.layers@.take(i as int),
                    ids@,
                ),
                ..d0
            }),
            out@ =~= start + stack_fillings(d0.layers@.take(i as int), ids@, resident@),
        decreases d.layers@.len() - i,
    {
        let touched = prepare_layer(&mut d.layers[i], ids, resident, out);
        if touched {
            d.composite_dirty = true;
        }
        proof {
            let now = d0.layers@.take(i + 1);
            let before = d0.layers@.take(i as int);
            assert(now.drop_last() =~= before);
            assert(now[i as int] == d0.layers@[i as int]);
            assert forall|k: int| 0 <= k < i implies now[k] == before[k] by {}
            if is_stack_touched(before, ids@) {
                let k = choose|k: int|
                    0 <= k < before.len() && (#[trigger] before[k]).is_touched(ids@);
                assert(now[k].is_touched(ids@));
            }
            if is_stack_touched(now, ids@) {
                let k = choose|k: int| 0 <= k < now.len() && (#[trigger] now[k]).is_touched(ids@);
                if k < i {
                    assert(before[k].is_touched(ids@));
                }
            }
        }
        i += 1;
    }
    assert(d0.layers@.take(i as int) =~= d0.layers@);
}

/// Stacks that all have to be put together again, and are the same otherwise.
pub open spec fn all_marked(before: Seq<PaintDocument>, after: Seq<PaintDocument>) -> bool {
    &&& after.len() == before.len()
    &&& forall|i: int|
        0 <= i < before.len() ==> #[trigger] after[i] == (PaintDocument {
            composite_dirty: true,
            ..before[i]
        })
}

/// The maps were filled with their base colours, if they had to be and are on the device.
pub open spec fn seed_step(
    p0: Painter,
    p1: Painter,
    resident: Seq<Handle>,
    textures: Seq<Handle>,
) -> bool {
    if p0.can_seed(resident) {
        &&& textures == p0.map_textures()
        &&& all_marked(p0.docs@, p1.docs@)
        &&& p1 == (Painter { docs: p1.docs, needs_map_seed: false, ..p0 })
    } else {
        &&& textures == Seq::<Handle>::empty()
        &&& p1 == p0
    }
}

/// What the layers wait for was done, as far as it could be.
pub open spec fn prepare_step(
    p0: Painter,
    p1: Painter,
    resident: Seq<Handle>,
    out: Seq<Filling>,
) -> bool {
    &&& out == docs_fillings(p0.docs@, p0.udim_ids@, resident)
    &&& p1.docs@.len() == p0.docs@.len()
    &&& forall|i: int|
        0 <= i < p0.docs@.len() ==> is_prepared(
            p0.docs@[i],
            #[trigger] p1.docs@[i],
            p0.udim_ids@,
            resident,
        )
    &&& p1 == (Painter { docs: p1.docs, ..p0 })
}

impl Painter {
    /// The maps have to be filled with their base colours, and are all on the device.
    pub open spec fn can_seed(self, resident: Seq<Handle>) -> bool {
        self.needs_map_seed && all_resident(self.map_textures(), resident)
    }

    /// Returns the textures that have to be filled with their base colours: all maps, once they
    /// are on the device. After that everything is put together again.
    pub fn seed_maps(&mut self, resident: &Vec<Handle>) -> (textures: Vec<Handle>)
        ensures
            seed_step(*old(self), *final(self), resident@, textures@),
            old(self).wf() ==> final(self).wf(),
    {
        if !self.needs_map_seed {
            return Vec::new();
        }
        let textures = self.dst_map_handles();
        if !are_resident(&textures, resident) {
            return Vec::new();
        }
        self.needs_map_seed = false;
        let mut i: usize = 0;
        while i < self.docs.len()
            invariant
                i <= self.docs@.len(),
                self.docs@.len() == old(self).docs@.len(),
                *self == (Painter { docs: self.docs, needs_map_seed: false, ..*old(self) }),
                forall|k: int|
                    0 <= k < i ==> #[trigger] self.docs@[k] == (PaintDocument {
                        composite_dirty: true,
                        ..old(self).docs@[k]
                    }),
                forall|k: int|
                    i <= k < self.docs@.len() ==> #[trigger] self.docs@[k] == old(self).docs@[k],
            decreases self.docs@.len() - i,
        {
            self.docs[i].mark_dirty();
            i += 1;
        }
        textures
    }

    /// Returns the textures that have to be filled: those of the layers that wait to be cleared
    /// and of the masks that wait for their first colour.
    pub fn prepare_layers(&mut self, resident: &Vec<Handle>) -> (out: Vec<Filling>)
        ensures
            prepare_step(*old(self), *final(self), resident@, out@),
            old(self).wf() ==> final(self).wf(),
    {
        let mut out: Vec<Filling> = Vec::new();
        let mut i: usize = 0;
        let ghost docs = self.docs@;
        let ghost ids = self.udim_ids@;
        assert(docs_fillings(docs.take(0), ids, resident@) =~= Seq::empty());
        while i < self.docs.len()
            invariant
                i <= self.docs@.len(),
                docs == old(self).docs@,
                ids == old(self).udim_ids@,
                self.docs@.len() == docs.len(),
                *self == (Painter { docs: self.docs, ..*old(self) }),
                forall|k: int|
                    0 <= k < i ==> is_prepared(
                        docs[k],
                        #[trigger] self.docs@[k],
                        ids,
                        resident@,
                    ),
                forall|k: int| i <= k < docs.len() ==> #[trigger] self.docs@[k] == docs[k],
                out@ == docs_fillings(docs.take(i as int), ids, resident@),
            decreases self.docs@.len() - i,
        {
            prepare_stack(&mut self.docs[i], &self.udim_ids, resident, &mut out);
            assert(docs.take(i + 1).drop_last() =~= docs.take(i as int));
            i += 1;
        }
        assert(docs.take(i as int) =~= docs);
        assert(old(self).wf() ==> self.wf()) by {
            if old(self).wf() {
                assert forall|k: int| 0 <= k < 4 implies (#[trigger] self.docs@[k]).wf() by {
                    assert(old(self).docs@[k].wf());
                    assert(is_prepared(docs[k], self.docs@[k], ids, resident@));
                }
            }
        }
        out
    }
}

/// How the stamps of a frame go onto the textures.
#[derive(Debug)]
pub struct StampPlan {
    /// The tiles that are stamped.
    pub tiles: Vec<Tile>,
    /// Which brush shape or normal stamp.
    pub index: usize,
    /// The texels of the brush shape are its coverage.
    pub coverage: bool,
    /// A normal stamp, not a brush shape.
    pub normals: bool,
    pub erase: bool,
}

/// The stack of the current map has to be put together again if it was stamped.
pub open spec fn note_step(p0: Painter, p1: Painter, stamped: bool) -> bool {
    &&& p1.docs@ == if stamped {
        p0.docs@.update(
            p0.paint_map.position(),
            PaintDocument { composite_dirty: true, ..p0.current_doc() },
        )
    } else {
        p0.docs@
    }
    &&& p1 == (Painter { docs: p1.docs, ..p0 })
}

/// Metallic and roughness were tied together.
pub open spec fn link_step(
    p0: Painter,
    p1: Painter,
    resident: Seq<Handle>,
    textures: Seq<Handle>,
) -> bool {
    &&& p1.docs@ == p0.linked_docs()
    &&& p1 == (Painter { docs: p1.docs, ..p0 })
    &&& textures == if p0.shared_map_dirty() {
        crate::paint::textures(at_hand(p0.map_tiles(PaintMap::Metallic), resident))
    } else {
        Seq::empty()
    }
}

impl Painter {
    /// Normals are stamped: the normal map is painted, and not a mask.
    pub open spec fn stamps_normals(self) -> bool {
        self.paint_map is Normal && !self.strokes_mask()
    }

    /// How the stamps of a frame go onto the textures of the active layer, or of its mask.
    pub open spec fn is_stamping(
        self,
        plan: StampPlan,
        alphas: Seq<BrushAlpha>,
        resident: Seq<Handle>,
    ) -> bool {
        &&& plan.tiles@ == at_hand(self.stamp_tiles(), resident)
        &&& plan.normals == self.stamps_normals()
        &&& plan.index == if self.stamps_normals() {
            self.active_nrm
        } else {
            self.active_alpha
        }
        &&& plan.coverage == (!self.stamps_normals() && self.active_alpha < alphas.len()
            && alphas[self.active_alpha as int].coverage_stamp)
        &&& plan.erase == (self.tool == PaintTool::Eraser)
    }

    /// How the stamps of a frame go onto the textures of the active layer, or of its mask.
    pub fn plan_stamps(&self, alphas: &Vec<BrushAlpha>, resident: &Vec<Handle>) -> (plan: StampPlan)
        requires
            self.wf(),
        ensures
            self.is_stamping(plan, alphas@, resident@),
    {
        let all = self.stamp_target_tiles();
        let tiles = tiles_at_hand(&all, resident);
        let normals = self.paint_map == PaintMap::Normal && !self.painting_mask();
        let index: usize = if normals {
            self.active_nrm
        } else {
            self.active_alpha
        };
        let coverage = !normals && self.active_alpha < alphas.len()
            && alphas[self.active_alpha].coverage_stamp;
        StampPlan { tiles, index, coverage, normals, erase: self.tool == PaintTool::Eraser }
    }

    /// Takes note of the stamps that were made: if there was a stamp and a tile to take it, the
    /// stack has to be put together again.
    pub fn note_stamped(&mut self, plan: &StampPlan, stamps: usize)
        requires
            old(self).wf(),
        ensures
            final(self).wf(),
            note_step(*old(self), *final(self), stamps > 0 && plan.tiles@.len() > 0),
    {
        if stamps > 0 && plan.tiles.len() > 0 {
            self.doc_mut().mark_dirty();
        }
    }

    /// Metallic or roughness has to be put together again.
    pub open spec fn shared_map_dirty(self) -> bool {
        self.docs@[PaintMap::Metallic.position()].composite_dirty
            || self.docs@[PaintMap::Roughness.position()].composite_dirty
    }

    /// The stacks after metallic and roughness were tied together.
    pub open spec fn linked_docs(self) -> Seq<PaintDocument> {
        if self.shared_map_dirty() {
            let m = PaintMap::Metallic.position();
            let r = PaintMap::Roughness.position();
            self.docs@.update(m, PaintDocument { composite_dirty: true, ..self.docs@[m] }).update(
                r,
                PaintDocument { composite_dirty: true, ..self.docs@[r] },
            )
        } else {
            self.docs@
        }
    }

    /// Metallic and roughness share a map. If one of them has to be put together again, so has
    /// the other, on the base colours. Returns the textures that have to be filled with them.
    pub fn link_channels(&mut self, resident: &Vec<Handle>) -> (textures: Vec<Handle>)
        requires
            old(self).wf(),
        ensures
            final(self).wf(),
            link_step(*old(self), *final(self), resident@, textures@),
    {
        let m: usize = PaintMap::Metallic.index();
        let r: usize = PaintMap::Roughness.index();
        let mut textures: Vec<Handle> = Vec::new();
        if self.docs[m].composite_dirty || self.docs[r].composite_dirty {
            self.docs[m].mark_dirty();
            self.docs[r].mark_dirty();
            let all = self.material_map_tiles(PaintMap::Metallic);
            let tiles = tiles_at_hand(&all, resident);
            crate::paint::push_textures(&mut textures, &tiles);
            assert(self.docs@ =~= old(self).linked_docs());
            assert(forall|i: int|
                0 <= i < 4 ==> (#[trigger] self.docs@[i]).wf() == old(self).docs@[i].wf());
        }
        textures
    }

    /// The maps that have to be put together again, in order.
    pub open spec fn dirty_list(self, n: int) -> Seq<PaintMap>
        decreases n,
    {
        if n <= 0 {
            Seq::empty()
        } else if self.docs@[n - 1].composite_dirty {
            self.dirty_list(n - 1).push(PaintMap::ALL@[n - 1])
        } else {
            self.dirty_list(n - 1)
        }
    }

    /// The maps that have to be put together again.
    pub fn dirty_maps(&self) -> (maps: Vec<PaintMap>)
        requires
            self.wf(),
        ensures
            maps@ == self.dirty_list(4),
    {
        let mut maps: Vec<PaintMap> = Vec::new();
        let mut i: usize = 0;
        while i < 4
            invariant
                i <= 4,
                self.wf(),
                maps@ == self.dirty_list(i as int),
            decreases 4 - i,
        {
            if self.docs[i].composite_dirty {
                maps.push(PaintMap::ALL[i]);
            }
            i += 1;
        }
        maps
    }
}

/// A layer of a stack, as it is put onto a tile.
#[derive(Clone, Copy, Debug, PartialEq, Eq)]
pub struct StackLayer {
    pub opacity: u32,
    pub kind: LayerKind,
    pub fill: Rgba,
    pub content: Option<Handle>,
    pub mask: Option<Handle>,
}

/// A tile of a map that is put together.
#[derive(Debug)]
pub struct TilePass {
    pub dst: Handle,
    pub base: Rgba,
    pub channels: Rgba,
    /// The tile holds normals.
    pub normals: bool,
    /// From the bottom to the top.
    pub layers: Vec<StackLayer>,
}

/// The texture of a tile: the first in a list that has its number.
pub open spec fn tile_texture(tiles: Seq<Tile>, udim: u32) -> Option<Handle>
    decreases tiles.len(),
{
    if tiles.len() == 0 {
        None
    } else if tiles[0].0 == udim {
        Some(tiles[0].1)
    } else {
        tile_texture(tiles.skip(1), udim)
    }
}

/// The texture of a tile.
pub fn find_tile(tiles: &Vec<Tile>, udim: u32) -> (h: Option<Handle>)
    ensures
        h == tile_texture(tiles@, udim),
{
    let mut i: usize = 0;
    assert(tiles@.skip(0) =~= tiles@);
    while i < tiles.len()
        invariant
            i <= tiles@.len(),
            tile_texture(tiles@, udim) == tile_texture(tiles@.skip(i as int), udim),
        decreases tiles@.len() - i,
    {
        assert(tiles@.skip(i as int)[0] == tiles@[i as int]);
        if tiles[i].0 == udim {
            return Some(tiles[i].1);
        }
        assert(tiles@.skip(i as int).skip(1) =~= tiles@.skip(i + 1));
        i += 1;
    }
    None
}

impl Layer {
    /// The layer is seen.
    pub open spec fn is_seen(self) -> bool {
        self.visible && crate::bits::is_less(FAINT, self.opacity)
    }

    /// The layer can be put onto a tile: it waits for nothing, and the textures that it has for
    /// the tile are on the device. A painted layer needs one.
    pub open spec fn is_ready(self, ids: Seq<u32>, udim: u32, resident: Seq<Handle>) -> bool {
        &&& !self.needs_clear
        &&& self.mask_init is None
        &&& self.kind == LayerKind::Paint ==> match tile_texture(self.content(ids), udim) {
            Some(h) => resident.contains(h),
            None => false,
        }
        &&& match tile_texture(self.mask_parts(ids), udim) {
            Some(h) => resident.contains(h),
            None => true,
        }
    }

    /// How the layer is put onto a tile of a map. The maps that hold one number take the
    /// brightness of the filling.
    pub open spec fn is_put<F: Fn(Rgba) -> u32>(
        self,
        s: StackLayer,
        map: PaintMap,
        ids: Seq<u32>,
        udim: u32,
        luma: F,
    ) -> bool {
        &&& s.opacity == self.opacity
        &&& s.kind == self.kind
        &&& s.content == if self.kind == LayerKind::Paint {
            tile_texture(self.content(ids), udim)
        } else {
            None
        }
        &&& s.mask == tile_texture(self.mask_parts(ids), udim)
        &&& if map is Metallic || map is Roughness {
            &&& call_ensures(luma, (self.fill,), s.fill.r)
            &&& s.fill == Rgba { r: s.fill.r, g: s.fill.r, b: s.fill.r, a: crate::bits::ONE }
        } else {
            s.fill == self.fill
        }
    }
}

/// The layers of a stack that are seen.
pub open spec fn seen(layers: Seq<Layer>) -> Seq<Layer>
    decreases layers.len(),
{
    if layers.len() == 0 {
        Seq::empty()
    } else if layers.last().is_seen() {
        seen(layers.drop_last()).push(layers.last())
    } else {
        seen(layers.drop_last())
    }
}

/// Every layer of a stack that is seen can be put onto a tile.
pub open spec fn is_stack_ready(
    layers: Seq<Layer>,
    ids: Seq<u32>,
    udim: u32,
    resident: Seq<Handle>,
) -> bool {
    forall|i: int|
        0 <= i < layers.len() && (#[trigger] layers[i]).is_seen() ==> layers[i].is_ready(
            ids,
            udim,
            resident,
        )
}

/// How the layers that are seen are put onto a tile.
pub open spec fn is_stack_put<F: Fn(Rgba) -> u32>(
    put: Seq<StackLayer>,
    layers: Seq<Layer>,
    map: PaintMap,
    ids: Seq<u32>,
    udim: u32,
    luma: F,
) -> bool {
    &&& put.len() == seen(layers).len()
    &&& forall|i: int|
        0 <= i < put.len() ==> seen(layers)[i].is_put(#[trigger] put[i], map, ids, udim, luma)
}

fn put_layer<F: Fn(Rgba) -> u32>(
    l: &Layer,
    map: PaintMap,
    ids: &Vec<u32>,
    udim: u32,
    resident: &Vec<Handle>,
    luma: &F,
) -> (s: Option<StackLayer>)
    requires
        forall|c: Rgba| call_requires(*luma, (c,)),
    ensures
        match s {
            Some(s) => l.is_ready(ids@, udim, resident@) && l.is_put(s, map, ids@, udim, *luma),
            None => !l.is_ready(ids@, udim, resident@),
        },
{
    if l.needs_clear || l.mask_init.is_some() {
        return None;
    }
    let mut content: Option<Handle> = None;
    if l.kind == LayerKind::Paint {
        let tiles = l.content_tiles(ids);
        content = find_tile(&tiles, udim);
        match content {
            Some(h) => {
                if !contains_handle(resident, h) {
                    return None;
                }
            },
            None => {
                return None;
            },
        }
    }
    let tiles = l.mask_tiles(ids);
    let mask = find_tile(&tiles, udim);
    match mask {
        Some(h) => {
            if !contains_handle(resident, h) {
                return None;
            }
        },
        None => {},
    }
    let fill = match map {
        PaintMap::Albedo => l.fill,
        PaintMap::Normal => l.fill,
        PaintMap::Metallic => Rgba::grey(luma(l.fill)),
        PaintMap::Roughness => Rgba::grey(luma(l.fill)),
    };
    Some(StackLayer { opacity: l.opacity, kind: l.kind, fill, content, mask })
}

/// How the layers of a stack are put onto a tile of a map, if all that are seen can be.
pub fn put_stack<F: Fn(Rgba) -> u32>(
    layers: &Vec<Layer>,
    map: PaintMap,
    ids: &Vec<u32>,
    udim: u32,
    resident: &Vec<Handle>,
    luma: &F,
) -> (put: Option<Vec<StackLayer>>)
    requires
        forall|c: Rgba| call_requires(*luma, (c,)),
    ensures
        match put {
            Some(put) => is_stack_ready(layers@, ids@, udim, resident@) && is_stack_put(
                put@,
                layers@,
                map,
                ids@,
                udim,
                *luma,
            ),
            None => !is_stack_ready(layers@, ids@, udim, resident@),
        },
{
    let mut put: Vec<StackLayer> = Vec::new();
    let mut i: usize = 0;
    assert(seen(layers@.take(0)) =~= Seq::empty());
    while i < layers.len()
        invariant
            i <= layers@.len(),
            forall|c: Rgba| call_requires(*luma, (c,)),
            forall|k: int|
                0 <= k < i && (#[trigger] layers@[k]).is_seen() ==> layers@[k].is_ready(
                    ids@,
                    udim,
                    resident@,
                ),
            is_stack_put(put@, layers@.take(i as int), map, ids@, udim, *luma),
        decreases layers@.len() - i,
    {
        let ghost before = put@;
        assert(layers@.take(i + 1).drop_last() =~= layers@.take(i as int));
        if layers[i].visible && less(FAINT, layers[i].opacity) {
            match put_layer(&layers[i], map, ids, udim, resident, luma) {
                Some(s) => {
                    put.push(s);
                },
                None => {
                    return None;
                },
            }
            assert(forall|k: int| 0 <= k < before.len() ==> put@[k] == before[k]);
        }
        i += 1;
    }
    assert(layers@.take(i as int) =~= layers@);
    Some(put)
}

/// How a tile is put together: with all layers that are seen, or as long as one of them cannot be
/// put onto it, with the base colour alone.
pub open spec fn is_pass<F: Fn(Rgba) -> u32>(
    pass: TilePass,
    d: PaintDocument,
    map: PaintMap,
    ids: Seq<u32>,
    tile: Tile,
    resident: Seq<Handle>,
    luma: F,
) -> bool {
    &&& pass.dst == tile.1
    &&& pass.base == d.base_rgba
    &&& pass.channels == map.channels()
    &&& pass.normals == (map is Normal)
    &&& if is_stack_ready(d.layers@, ids, tile.0, resident) {
        is_stack_put(pass.layers@, d.layers@, map, ids, tile.0, luma)
    } else {
        pass.layers@.len() == 0
    }
}

/// Something of a map is still missing: a tile is not on the device, or cannot have its layers.
pub open spec fn is_unfinished(
    d: PaintDocument,
    tiles: Seq<Tile>,
    ids: Seq<u32>,
    resident: Seq<Handle>,
) -> bool {
    exists|i: int|
        0 <= i < tiles.len() && (!resident.contains((#[trigger] tiles[i]).1) || !is_stack_ready(
            d.layers@,
            ids,
            tiles[i].0,
            resident,
        ))
}

/// The tiles of a map that are on the device were put together again. The map has to be put
/// together once more as long as something is missing.
pub open spec fn map_step<F: Fn(Rgba) -> u32>(
    p0: Painter,
    p1: Painter,
    map: PaintMap,
    resident: Seq<Handle>,
    luma: F,
    passes: Seq<TilePass>,
) -> bool {
    let d = p0.docs@[map.position()];
    let tiles = p0.map_tiles(map);
    let ids = p0.udim_ids@;
    let there = at_hand(tiles, resident);
    &&& passes.len() == there.len()
    &&& forall|i: int|
        0 <= i < there.len() ==> is_pass(
            #[trigger] passes[i],
            d,
            map,
            ids,
            there[i],
            resident,
            luma,
        )
    &&& p1.docs@ == p0.docs@.update(
        map.position(),
        PaintDocument { composite_dirty: is_unfinished(d, tiles, ids, resident), ..d },
    )
    &&& p1 == (Painter { docs: p1.docs, ..p0 })
}

impl Painter {
    /// How the tiles of a map that are on the device are put together, and whether something is
    /// missing.
    fn passes_of<F: Fn(Rgba) -> u32>(
        &self,
        map: PaintMap,
        resident: &Vec<Handle>,
        luma: &F,
    ) -> (r: (Vec<TilePass>, bool))
        requires
            self.wf(),
            forall|c: Rgba| call_requires(*luma, (c,)),
        ensures
            ({
                let d = self.docs@[map.position()];
                let there = at_hand(self.map_tiles(map), resident@);
                &&& r.0@.len() == there.len()
                &&& forall|i: int|
                    0 <= i < there.len() ==> is_pass(
                        #[trigger] r.0@[i],
                        d,
                        map,
                        self.udim_ids@,
                        there[i],
                        resident@,
                        *luma,
                    )
                &&& r.1 == is_unfinished(d, self.map_tiles(map), self.udim_ids@, resident@)
            }),
    {
        let at: usize = map.index();
        let tiles = self.material_map_tiles(map);
        let mut passes: Vec<TilePass> = Vec::new();
        let mut missing = false;
        let mut i: usize = 0;
        let ghost d = self.docs@[map.position()];
        let ghost ids = self.udim_ids@;
        assert(at_hand(tiles@.take(0), resident@) =~= Seq::empty());
        assert(!is_unfinished(d, tiles@.take(0), ids, resident@));
        while i < tiles.len()
            invariant
                i <= tiles@.len(),
                self.wf(),
                at == map.position(),
                d == self.docs@[at as int],
                ids == self.udim_ids@,
                forall|c: Rgba| call_requires(*luma, (c,)),
                passes@.len() == at_hand(tiles@.take(i as int), resident@).len(),
                forall|k: int|
                    0 <= k < passes@.len() ==> is_pass(
                        #[trigger] passes@[k],
                        d,
                        map,
                        ids,
                        at_hand(tiles@.take(i as int), resident@)[k],
                        resident@,
                        *luma,
                    ),
                missing == is_unfinished(d, tiles@.take(i as int), ids, resident@),
            decreases tiles@.len() - i,
        {
            let ghost before = passes@;
            let ghost was = tiles@.take(i as int);
            let ghost now = tiles@.take(i + 1);
            let ghost was_missing = missing;
            assert(now.drop_last() =~= was);
            assert(now.last() == tiles@[i as int]);
            if contains_handle(resident, tiles[i].1) {
                let layers = match put_stack(
                    &self.docs[at].layers,
                    map,
                    &self.udim_ids,
                    tiles[i].0,
                    resident,
                    luma,
                ) {
                    Some(put) => put,
                    None => {
                        missing = true;
                        Vec::new()
                    },
                };
                passes.push(
                    TilePass {
                        dst: tiles[i].1,
                        base: self.docs[at].base_rgba,
                        channels: map.channel_mask(),
                        normals: map == PaintMap::Normal,
                        layers,
                    },
                );
                assert(forall|k: int| 0 <= k < before.len() ==> passes@[k] == before[k]);
            } else {
                missing = true;
            }
            proof {
                lemma_unfinished_step(d, tiles@, i as int, ids, resident@);
            }
            i += 1;
        }
        assert(tiles@.take(i as int) =~= tiles@);
        (passes, missing)
    }

    /// Puts the tiles of a map together again that are on the device. The map has to be put
    /// together once more as long as something is missing.
    pub fn plan_map<F: Fn(Rgba) -> u32>(
        &mut self,
        map: PaintMap,
        resident: &Vec<Handle>,
        luma: &F,
    ) -> (passes: Vec<TilePass>)
        requires
            old(self).wf(),
            forall|c: Rgba| call_requires(*luma, (c,)),
        ensures
            final(self).wf(),
            map_step(*old(self), *final(self), map, resident@, *luma, passes@),
    {
        let at: usize = map.index();
        let (passes, missing) = self.passes_of(map, resident, luma);
        self.docs[at].composite_dirty = missing;
        passes
    }
}

proof fn lemma_unfinished_step(
    d: PaintDocument,
    tiles: Seq<Tile>,
    i: int,
    ids: Seq<u32>,
    resident: Seq<Handle>,
)
    requires
        0 <= i < tiles.len(),
    ensures
        is_unfinished(d, tiles.take(i + 1), ids, resident) == (is_unfinished(
            d,
            tiles.take(i),
            ids,
            resident,
        ) || !resident.contains(tiles[i].1) || !is_stack_ready(
            d.layers@,
            ids,
            tiles[i].0,
            resident,
        )),
{
    let now = tiles.take(i + 1);
    let was = tiles.take(i);
    if is_unfinished(d, was, ids, resident) {
        let k = choose|k: int|
            0 <= k < was.len() && (!resident.contains((#[trigger] was[k]).1) || !is_stack_ready(
                d.layers@,
                ids,
                was[k].0,
                resident,
            ));
        assert(now[k] == was[k]);
    }
    if is_unfinished(d, now, ids, resident) {
        let k = choose|k: int|
            0 <= k < now.len() && (!resident.contains((#[trigger] now[k]).1) || !is_stack_ready(
                d.layers@,
                ids,
                now[k].0,
                resident,
            ));
        if k < i {
            assert(was[k] == now[k]);
        }
    }
    assert(now[i] == tiles[i]);
}

proof fn lemma_at_hand(tiles: Seq<Tile>, resident: Seq<Handle>, i: int)
    requires
        0 <= i < at_hand(tiles, resident).len(),
    ensures
        tiles.contains(at_hand(tiles, resident)[i]),
        resident.contains(at_hand(tiles, resident)[i].1),
    decreases tiles.len(),
{
    let rest = tiles.drop_last();
    if i < at_hand(rest, resident).len() {
        lemma_at_hand(rest, resident, i);
        let k = choose|k: int| 0 <= k < rest.len() && rest[k] == at_hand(rest, resident)[i];
        assert(tiles[k] == rest[k]);
    } else {
        assert(tiles[tiles.len() - 1] == tiles.last());
    }
}

/// Stamps go onto textures of the active layer, and onto no others.
pub proof fn law_stamps_stay_on_the_layer(p: Painter, resident: Seq<Handle>, i: int)
    requires
        p.wf(),
        0 <= i < at_hand(p.stamp_tiles(), resident).len(),
    ensures
        p.current_doc().current() is Some,
        p.current_doc().current()->0.all_textures().contains(
            at_hand(p.stamp_tiles(), resident)[i].1,
        ),
{
    lemma_at_hand(p.stamp_tiles(), resident, i);
    let tiles = p.stamp_tiles();
    let k = choose|k: int|
        0 <= k < tiles.len() && tiles[k] == at_hand(p.stamp_tiles(), resident)[i];
    let l = p.current_doc().current()->0;
    let all = l.all_textures();
    let tex = crate::paint::as_list(l.tex);
    let extra = crate::paint::textures(l.extra_tex@);
    let mask = crate::paint::as_list(l.mask);
    if l.kind == LayerKind::Fill || p.current_doc().paint_target == PaintTarget::Mask {
        assert(all[tex.len() + extra.len() + k] == tiles[k].1);
    } else {
        assert(all[k] == tiles[k].1);
    }
}

/// After metallic and roughness were tied together, either both have to be put together again or
/// neither, and the other maps are as they were.
pub proof fn law_shared_map_is_rebuilt_whole(p: Painter, map: PaintMap)
    requires
        p.wf(),
    ensures
        p.linked_docs().len() == 4,
        p.linked_docs()[PaintMap::Metallic.position()].composite_dirty == p.shared_map_dirty(),
        p.linked_docs()[PaintMap::Roughness.position()].composite_dirty == p.shared_map_dirty(),
        map is Albedo || map is Normal ==> p.linked_docs()[map.position()]
            == p.docs@[map.position()],
{
}

/// The two stacks that share a map write different channels of it.
pub proof fn law_shared_channels_differ()
    ensures
        ({
            let m = PaintMap::Metallic.channels();
            let r = PaintMap::Roughness.channels();
            let off = crate::bits::ZERO;
            (m.r == off || r.r == off) && (m.g == off || r.g == off) && (m.b == off || r.b == off)
                && (m.a == off || r.a == off)
        }),
{
}

proof fn lemma_all_ready(tiles: Seq<Tile>, resident: Seq<Handle>)
    requires
        all_resident(crate::paint::textures(tiles), resident),
    ensures
        all_filled(tiles, resident),
{
    assert forall|k: int| 0 <= k < tiles.len() implies resident.contains((#[trigger] tiles[k]).1) by {
        assert(crate::paint::textures(tiles)[k] == tiles[k].1);
    }
    lemma_ready_count(tiles, resident, tiles.len() as int);
}

proof fn lemma_tile_texture(tiles: Seq<Tile>, udim: u32)
    ensures
        match tile_texture(tiles, udim) {
            Some(h) => crate::paint::textures(tiles).contains(h),
            None => true,
        },
    decreases tiles.len(),
{
    if tiles.len() > 0 {
        let all = crate::paint::textures(tiles);
        if tiles[0].0 == udim {
            assert(all[0] == tiles[0].1);
        } else {
            let rest = tiles.skip(1);
            lemma_tile_texture(rest, udim);
            match tile_texture(rest, udim) {
                Some(h) => {
                    let k = choose|k: int|
                        0 <= k < rest.len() && crate::paint::textures(rest)[k] == h;
                    assert(all[k + 1] == h);
                },
                None => {},
            }
        }
    }
}

/// Once its textures are on the device, a layer waits for nothing after it was prepared, and can
/// be put onto every tile that it has a texture for.
pub proof fn law_prepared_layers_are_ready(
    l: Layer,
    ids: Seq<u32>,
    udim: u32,
    resident: Seq<Handle>,
)
    requires
        all_resident(crate::paint::textures(l.content(ids)), resident),
        all_resident(crate::paint::textures(l.mask_parts(ids)), resident),
    ensures
        !l.prepared(ids, resident).needs_clear,
        l.prepared(ids, resident).mask_init is None,
        l.kind == LayerKind::Fill || tile_texture(l.content(ids), udim) is Some ==> l.prepared(
            ids,
            resident,
        ).is_ready(ids, udim, resident),
{
    lemma_all_ready(l.content(ids), resident);
    lemma_all_ready(l.mask_parts(ids), resident);
    lemma_tile_texture(l.content(ids), udim);
    lemma_tile_texture(l.mask_parts(ids), udim);
    let p = l.prepared(ids, resident);
    assert(p.content(ids) == l.content(ids));
    assert(p.mask_parts(ids) == l.mask_parts(ids));
    match tile_texture(l.content(ids), udim) {
        Some(h) => {
            let all = crate::paint::textures(l.content(ids));
            let k = choose|k: int| 0 <= k < all.len() && all[k] == h;
            assert(resident.contains(all[k]));
        },
        None => {},
    }
    match tile_texture(l.mask_parts(ids), udim) {
        Some(h) => {
            let all = crate::paint::textures(l.mask_parts(ids));
            let k = choose|k: int| 0 <= k < all.len() && all[k] == h;
            assert(resident.contains(all[k]));
        },
        None => {},
    }
}

/// What a frame does about the textures, in this order.
pub struct FramePlan {
    /// The maps that are filled with their base colours.
    pub seeds: Vec<Handle>,
    /// The layers and masks that are filled.
    pub fillings: Vec<Filling>,
    /// The stamps that are made, and how.
    pub stamps: Vec<PendingStamp>,
    pub stamping: StampPlan,
    /// The shared maps that are filled with their base colours once more.
    pub bases: Vec<Handle>,
    /// The tiles that are put together, map by map.
    pub passes: Vec<Vec<TilePass>>,
}

/// The maps were seeded, and after that the layers prepared.
pub open spec fn fill_step(
    p0: Painter,
    p1: Painter,
    resident: Seq<Handle>,
    seeds: Seq<Handle>,
    fillings: Seq<Filling>,
) -> bool {
    exists|mid: Painter| #[trigger]
        seed_step(p0, mid, resident, seeds) && prepare_step(mid, p1, resident, fillings)
}

/// The stamps that waited were taken and noted.
pub open spec fn stamp_step(
    p0: Painter,
    p1: Painter,
    alphas: Seq<BrushAlpha>,
    resident: Seq<Handle>,
    stamps: Seq<PendingStamp>,
    stamping: StampPlan,
) -> bool {
    &&& stamps == p0.pending_stamps@
    &&& p0.is_stamping(stamping, alphas, resident)
    &&& p1.pending_stamps@ == Seq::<PendingStamp>::empty()
    &&& note_step(
        Painter { pending_stamps: p1.pending_stamps, ..p0 },
        p1,
        stamps.len() > 0 && stamping.tiles@.len() > 0,
    )
}

/// Metallic and roughness were tied together, and after that the maps put together that had to
/// be.
pub open spec fn put_step<F: Fn(Rgba) -> u32>(
    p0: Painter,
    p1: Painter,
    resident: Seq<Handle>,
    luma: F,
    bases: Seq<Handle>,
    passes: Seq<Vec<TilePass>>,
) -> bool {
    exists|mid: Painter| #[trigger]
        link_step(p0, mid, resident, bases) && maps_step(
            mid,
            p1,
            mid.dirty_list(4),
            resident,
            luma,
            passes,
        )
}

/// The steps of a frame: everything is filled, stamped and put together, as far as it can be.
#[verifier::opaque]
pub open spec fn is_frame<F: Fn(Rgba) -> u32>(
    p0: Painter,
    p1: Painter,
    alphas: Seq<BrushAlpha>,
    resident: Seq<Handle>,
    luma: F,
    plan: FramePlan,
) -> bool {
    exists|a: Painter, b: Painter|
        fill_step(p0, a, resident, plan.seeds@, plan.fillings@) && #[trigger] stamp_step(
            a,
            b,
            alphas,
            resident,
            plan.stamps@,
            plan.stamping,
        ) && put_step(b, p1, resident, luma, plan.bases@, plan.passes@)
}

/// The painter before, between and after some maps are put together.
pub open spec fn are_put<F: Fn(Rgba) -> u32>(
    t: Seq<Painter>,
    maps: Seq<PaintMap>,
    passes: Seq<Vec<TilePass>>,
    resident: Seq<Handle>,
    luma: F,
) -> bool {
    &&& t.len() == maps.len() + 1
    &&& passes.len() == maps.len()
    &&& forall|k: int|
        0 <= k < maps.len() ==> map_step(
            #[trigger] t[k],
            t[k + 1],
            maps[k],
            resident,
            luma,
            passes[k]@,
        )
}

/// Some maps were put together, one after the other.
pub open spec fn maps_step<F: Fn(Rgba) -> u32>(
    p0: Painter,
    p1: Painter,
    maps: Seq<PaintMap>,
    resident: Seq<Handle>,
    luma: F,
    passes: Seq<Vec<TilePass>>,
) -> bool {
    exists|t: Seq<Painter>| #[trigger]
        are_put(t, maps, passes, resident, luma) && t[0] == p0 && t.last() == p1
}

/// No layer of a stack waits for anything.
pub open spec fn is_calm(layers: Seq<Layer>) -> bool {
    forall|k: int|
        0 <= k < layers.len() ==> !(#[trigger] layers[k]).needs_clear && layers[k].mask_init is None
}

impl Painter {
    /// All textures of the maps and of the layers are on the device.
    pub open spec fn is_all_resident(self, resident: Seq<Handle>) -> bool {
        &&& all_resident(self.map_textures(), resident)
        &&& all_resident(crate::maps::all_stack_textures(self.docs@), resident)
    }

    /// Nothing is left to do: no map has to be seeded, no stack to be put together, and no layer
    /// waits.
    pub open spec fn is_settled(self) -> bool {
        &&& !self.needs_map_seed
        &&& forall|i: int|
            0 <= i < self.docs@.len() ==> !(#[trigger] self.docs@[i]).composite_dirty && is_calm(
                self.docs@[i].layers@,
            )
    }

    /// The layers of every stack wait for nothing and can be put onto all tiles of their map.
    spec fn is_ready(self, resident: Seq<Handle>) -> bool {
        forall|i: int|
            0 <= i < 4 ==> is_calm((#[trigger] self.docs@[i]).layers@) && !is_unfinished(
                self.docs@[i],
                self.map_tiles(PaintMap::ALL@[i]),
                self.udim_ids@,
                resident,
            )
    }
}

proof fn lemma_stack_textures(layers: Seq<Layer>, k: int, h: Handle)
    requires
        0 <= k < layers.len(),
        layers[k].all_textures().contains(h),
    ensures
        crate::maps::stack_textures(layers).contains(h),
    decreases layers.len(),
{
    let rest = layers.drop_last();
    let before = crate::maps::stack_textures(rest);
    let last = layers.last().all_textures();
    let all = crate::maps::stack_textures(layers);
    assert(all == before + last);
    if k < rest.len() {
        assert(rest[k] == layers[k]);
        lemma_stack_textures(rest, k, h);
        let j = choose|j: int| 0 <= j < before.len() && before[j] == h;
        assert(all[j] == h);
    } else {
        let j = choose|j: int| 0 <= j < last.len() && last[j] == h;
        assert(all[before.len() + j] == h);
    }
}

proof fn lemma_docs_textures(docs: Seq<PaintDocument>, i: int, k: int, h: Handle)
    requires
        0 <= i < docs.len(),
        0 <= k < docs[i].layers@.len(),
        docs[i].layers@[k].all_textures().contains(h),
    ensures
        crate::maps::all_stack_textures(docs).contains(h),
    decreases docs.len(),
{
    let rest = docs.drop_last();
    let before = crate::maps::all_stack_textures(rest);
    let last = crate::maps::stack_textures(docs.last().layers@);
    let all = crate::maps::all_stack_textures(docs);
    assert(all == before + last);
    if i < rest.len() {
        assert(rest[i] == docs[i]);
        lemma_docs_textures(rest, i, k, h);
        let j = choose|j: int| 0 <= j < before.len() && before[j] == h;
        assert(all[j] == h);
    } else {
        lemma_stack_textures(docs.last().layers@, k, h);
        let j = choose|j: int| 0 <= j < last.len() && last[j] == h;
        assert(all[before.len() + j] == h);
    }
}

/// The tiles of a layer are textures of the layer.
proof fn lemma_own_tiles(l: Layer, ids: Seq<u32>)
    ensures
        forall|k: int|
            0 <= k < l.content(ids).len() ==> l.all_textures().contains(
                (#[trigger] l.content(ids)[k]).1,
            ),
        forall|k: int|
            0 <= k < l.mask_parts(ids).len() ==> l.all_textures().contains(
                (#[trigger] l.mask_parts(ids)[k]).1,
            ),
{
    let all = l.all_textures();
    let tex = crate::paint::as_list(l.tex);
    let extra = crate::paint::textures(l.extra_tex@);
    let mask = crate::paint::as_list(l.mask);
    assert forall|k: int| 0 <= k < l.content(ids).len() implies all.contains(
        (#[trigger] l.content(ids)[k]).1,
    ) by {
        assert(all[k] == l.content(ids)[k].1);
    }
    assert forall|k: int| 0 <= k < l.mask_parts(ids).len() implies all.contains(
        (#[trigger] l.mask_parts(ids)[k]).1,
    ) by {
        assert(all[tex.len() + extra.len() + k] == l.mask_parts(ids)[k].1);
    }
}

proof fn lemma_finds_tile(tiles: Seq<Tile>, udim: u32, k: int)
    requires
        0 <= k < tiles.len(),
        tiles[k].0 == udim,
    ensures
        tile_texture(tiles, udim) is Some,
    decreases k,
{
    if tiles[0].0 != udim {
        assert(tiles.skip(1)[k - 1] == tiles[k]);
        lemma_finds_tile(tiles.skip(1), udim, k - 1);
    }
}

/// A painted layer has a texture for every tile of a map.
proof fn lemma_layer_reaches(p: Painter, map: PaintMap, l: Layer, j: int)
    requires
        p.is_tiled(),
        l.is_tiled(p.udim_ids@),
        l.kind == LayerKind::Paint,
        0 <= j < p.map_tiles(map).len(),
    ensures
        tile_texture(l.content(p.udim_ids@), p.map_tiles(map)[j].0) is Some,
{
    let ids = p.udim_ids@;
    let tiles = l.content(ids);
    let m = p.map_tiles(map);
    let extra = match map {
        PaintMap::Albedo => p.extra_albedo@,
        PaintMap::Metallic => p.extra_mr@,
        PaintMap::Roughness => p.extra_mr@,
        PaintMap::Normal => p.extra_nrm@,
    };
    if j > 0 {
        assert(m[j] == extra[j - 1]);
        assert(tiles[j] == l.extra_tex@[j - 1]);
    }
    lemma_finds_tile(tiles, m[j].0, j);
}

/// The textures of a map are among those of all maps.
proof fn lemma_map_resident(p: Painter, map: PaintMap, j: int, resident: Seq<Handle>)
    requires
        all_resident(p.map_textures(), resident),
        0 <= j < p.map_tiles(map).len(),
    ensures
        resident.contains(p.map_tiles(map)[j].1),
{
    let all = p.map_textures();
    let a = p.extra_albedo@.len() as int;
    let m = p.extra_mr@.len() as int;
    let h = p.map_tiles(map)[j].1;
    let at = match map {
        PaintMap::Albedo => if j == 0 {
            0
        } else {
            2 + j
        },
        PaintMap::Metallic => if j == 0 {
            1
        } else {
            2 + a + j
        },
        PaintMap::Roughness => if j == 0 {
            1
        } else {
            2 + a + j
        },
        PaintMap::Normal => if j == 0 {
            2
        } else {
            2 + a + m + j
        },
    };
    assert(all[at] == h);
}

proof fn lemma_layer_settles(p: Painter, i: int, k: int, resident: Seq<Handle>)
    requires
        p.wf(),
        p.is_all_resident(resident),
        0 <= i < 4,
        0 <= k < p.docs@[i].layers@.len(),
    ensures
        ({
            let l = p.docs@[i].layers@[k].prepared(p.udim_ids@, resident);
            &&& !l.needs_clear
            &&& l.mask_init is None
            &&& forall|j: int|
                0 <= j < p.map_tiles(PaintMap::ALL@[i]).len() ==> l.is_ready(
                    p.udim_ids@,
                    (#[trigger] p.map_tiles(PaintMap::ALL@[i])[j]).0,
                    resident,
                )
        }),
{
    let l = p.docs@[i].layers@[k];
    let ids = p.udim_ids@;
    let stacks = crate::maps::all_stack_textures(p.docs@);
    lemma_own_tiles(l, ids);
    assert forall|h: Handle| l.all_textures().contains(h) implies #[trigger] resident.contains(
        h,
    ) by {
        lemma_docs_textures(p.docs@, i, k, h);
        let n = choose|n: int| 0 <= n < stacks.len() && stacks[n] == h;
        assert(resident.contains(stacks[n]));
    }
    let content = crate::paint::textures(l.content(ids));
    let mask = crate::paint::textures(l.mask_parts(ids));
    assert forall|n: int| 0 <= n < content.len() implies resident.contains(
        #[trigger] content[n],
    ) by {
        assert(content[n] == l.content(ids)[n].1);
    }
    assert forall|n: int| 0 <= n < mask.len() implies resident.contains(#[trigger] mask[n]) by {
        assert(mask[n] == l.mask_parts(ids)[n].1);
    }
    law_prepared_layers_are_ready(l, ids, 0, resident);
    assert(p.docs@[i].is_tiled(ids));
    assert forall|j: int| 0 <= j < p.map_tiles(PaintMap::ALL@[i]).len() implies l.prepared(
        ids,
        resident,
    ).is_ready(ids, (#[trigger] p.map_tiles(PaintMap::ALL@[i])[j]).0, resident) by {
        let udim = p.map_tiles(PaintMap::ALL@[i])[j].0;
        if l.kind == LayerKind::Paint {
            lemma_layer_reaches(p, PaintMap::ALL@[i], l, j);
        }
        law_prepared_layers_are_ready(l, ids, udim, resident);
    }
}

proof fn lemma_prepared_is_ready(
    p0: Painter,
    p1: Painter,
    resident: Seq<Handle>,
    out: Seq<Filling>,
)
    requires
        p0.wf(),
        p0.is_all_resident(resident),
        prepare_step(p0, p1, resident, out),
    ensures
        p1.is_ready(resident),
{
    let ids = p0.udim_ids@;
    assert forall|i: int| 0 <= i < 4 implies is_calm((#[trigger] p1.docs@[i]).layers@)
        && !is_unfinished(p1.docs@[i], p1.map_tiles(PaintMap::ALL@[i]), ids, resident) by {
        let map = PaintMap::ALL@[i];
        let d = p1.docs@[i];
        assert(is_prepared(p0.docs@[i], d, ids, resident));
        assert forall|k: int| 0 <= k < d.layers@.len() implies !(#[trigger] d.layers@[k]).needs_clear
            && d.layers@[k].mask_init is None by {
            lemma_layer_settles(p0, i, k, resident);
        }
        assert(p1.map_tiles(map) == p0.map_tiles(map));
        assert forall|j: int| 0 <= j < p0.map_tiles(map).len() implies resident.contains(
            (#[trigger] p0.map_tiles(map)[j]).1,
        ) && is_stack_ready(d.layers@, ids, p0.map_tiles(map)[j].0, resident) by {
            lemma_map_resident(p0, map, j, resident);
            let udim = p0.map_tiles(map)[j].0;
            assert forall|k: int|
                0 <= k < d.layers@.len() && (#[trigger] d.layers@[k]).is_seen() implies d.layers@[k].is_ready(
                ids,
                udim,
                resident,
            ) by {
                lemma_layer_settles(p0, i, k, resident);
            }
        }
    }
}

/// Only the marks of the stacks changed.
spec fn only_marks(p0: Painter, p1: Painter) -> bool {
    &&& p1.docs@.len() == p0.docs@.len()
    &&& forall|i: int|
        0 <= i < p0.docs@.len() ==> #[trigger] p1.docs@[i] == (PaintDocument {
            composite_dirty: p1.docs@[i].composite_dirty,
            ..p0.docs@[i]
        })
    &&& p1 == (Painter {
        docs: p1.docs,
        pending_stamps: p1.pending_stamps,
        needs_map_seed: p1.needs_map_seed,
        ..p0
    })
}

proof fn lemma_marks_keep_ready(p0: Painter, p1: Painter, resident: Seq<Handle>)
    requires
        p0.docs@.len() == 4,
        p0.is_ready(resident),
        only_marks(p0, p1),
    ensures
        p1.is_ready(resident),
{
    assert forall|i: int| 0 <= i < 4 implies is_calm((#[trigger] p1.docs@[i]).layers@)
        && !is_unfinished(
        p1.docs@[i],
        p1.map_tiles(PaintMap::ALL@[i]),
        p1.udim_ids@,
        resident,
    ) by {
        let d = p0.docs@[i];
        let map = PaintMap::ALL@[i];
        assert(p1.docs@[i].layers@ == d.layers@);
        assert(p1.map_tiles(map) == p0.map_tiles(map));
        assert(!is_unfinished(d, p0.map_tiles(map), p0.udim_ids@, resident));
        assert forall|j: int| 0 <= j < p0.map_tiles(map).len() implies resident.contains(
            (#[trigger] p0.map_tiles(map)[j]).1,
        ) && is_stack_ready(d.layers@, p0.udim_ids@, p0.map_tiles(map)[j].0, resident) by {}
    }
}

proof fn lemma_dirty_list(p: Painter, n: int)
    requires
        0 <= n <= 4,
    ensures
        forall|i: int|
            0 <= i < n && (#[trigger] p.docs@[i]).composite_dirty ==> exists|k: int|
                0 <= k < p.dirty_list(n).len() && (#[trigger] p.dirty_list(n)[k]).position() == i,
        p.dirty_list(n).len() <= n,
    decreases n,
{
    if n > 0 {
        lemma_dirty_list(p, n - 1);
        let before = p.dirty_list(n - 1);
        let now = p.dirty_list(n);
        assert forall|i: int|
            0 <= i < n && (#[trigger] p.docs@[i]).composite_dirty implies exists|k: int|
            0 <= k < now.len() && (#[trigger] now[k]).position() == i by {
            if i < n - 1 {
                let k = choose|k: int|
                    0 <= k < before.len() && (#[trigger] before[k]).position() == i;
                assert(now[k] == before[k]);
            } else {
                assert(now[before.len() as int] == PaintMap::ALL@[n - 1]);
            }
        }
    }
}

/// The stacks that are still marked belong to maps that come later.
proof fn lemma_maps_settle<F: Fn(Rgba) -> u32>(
    t: Seq<Painter>,
    maps: Seq<PaintMap>,
    passes: Seq<Vec<TilePass>>,
    resident: Seq<Handle>,
    luma: F,
    n: int,
)
    requires
        are_put(t, maps, passes, resident, luma),
        t[0].docs@.len() == 4,
        t[0].is_ready(resident),
        forall|i: int|
            0 <= i < 4 && (#[trigger] t[0].docs@[i]).composite_dirty ==> exists|k: int|
                0 <= k < maps.len() && (#[trigger] maps[k]).position() == i,
        0 <= n <= maps.len(),
    ensures
        only_marks(t[0], t[n]),
        t[n].needs_map_seed == t[0].needs_map_seed,
        t[n].is_ready(resident),
        forall|i: int|
            0 <= i < 4 && (#[trigger] t[n].docs@[i]).composite_dirty ==> exists|k: int|
                n <= k < maps.len() && (#[trigger] maps[k]).position() == i,
    decreases n,
{
    if n > 0 {
        lemma_maps_settle(t, maps, passes, resident, luma, n - 1);
        let p = t[n - 1];
        let q = t[n];
        let map = maps[n - 1];
        assert(map_step(p, q, map, resident, luma, passes[n - 1]@));
        let at = map.position();
        assert(PaintMap::ALL@[at] == map);
        assert(!is_unfinished(p.docs@[at], p.map_tiles(map), p.udim_ids@, resident));
        assert(only_marks(p, q));
        lemma_marks_keep_ready(p, q, resident);
        assert forall|i: int|
            0 <= i < 4 && (#[trigger] q.docs@[i]).composite_dirty implies exists|k: int|
            n <= k < maps.len() && (#[trigger] maps[k]).position() == i by {
            assert(i != at);
            assert(p.docs@[i].composite_dirty);
            let k = choose|k: int|
                n - 1 <= k < maps.len() && (#[trigger] maps[k]).position() == i;
            assert(k != n - 1);
        }
    }
}

/// A frame leaves nothing to do: once all textures are on the device, no map has to be seeded
/// after it, no stack to be put together, and no layer waits.
pub proof fn law_a_frame_settles<F: Fn(Rgba) -> u32>(
    p0: Painter,
    p1: Painter,
    alphas: Seq<BrushAlpha>,
    resident: Seq<Handle>,
    luma: F,
    plan: FramePlan,
)
    requires
        p0.wf(),
        p0.is_all_resident(resident),
        is_frame(p0, p1, alphas, resident, luma, plan),
    ensures
        p1.is_settled(),
{
    reveal(is_frame);
    let (a, b) = choose|a: Painter, b: Painter|
        fill_step(p0, a, resident, plan.seeds@, plan.fillings@) && #[trigger] stamp_step(
            a,
            b,
            alphas,
            resident,
            plan.stamps@,
            plan.stamping,
        ) && put_step(b, p1, resident, luma, plan.bases@, plan.passes@);
    lemma_fill_settles(p0, a, resident, plan.seeds@, plan.fillings@);
    assert(only_marks(a, b));
    lemma_marks_keep_ready(a, b, resident);
    lemma_put_settles(b, p1, resident, luma, plan.bases@, plan.passes@);
}

proof fn lemma_fill_settles(
    p0: Painter,
    p1: Painter,
    resident: Seq<Handle>,
    seeds: Seq<Handle>,
    fillings: Seq<Filling>,
)
    requires
        p0.wf(),
        p0.is_all_resident(resident),
        fill_step(p0, p1, resident, seeds, fillings),
    ensures
        p1.docs@.len() == 4,
        p1.is_ready(resident),
        !p1.needs_map_seed,
{
    let mid = choose|mid: Painter| #[trigger]
        seed_step(p0, mid, resident, seeds) && prepare_step(mid, p1, resident, fillings);
    lemma_seed_keeps(p0, mid, resident, seeds);
    lemma_prepared_is_ready(mid, p1, resident, fillings);
}

proof fn lemma_put_settles<F: Fn(Rgba) -> u32>(
    p0: Painter,
    p1: Painter,
    resident: Seq<Handle>,
    luma: F,
    bases: Seq<Handle>,
    passes: Seq<Vec<TilePass>>,
)
    requires
        p0.docs@.len() == 4,
        p0.is_ready(resident),
        !p0.needs_map_seed,
        put_step(p0, p1, resident, luma, bases, passes),
    ensures
        p1.is_settled(),
{
    let mid = choose|mid: Painter| #[trigger]
        link_step(p0, mid, resident, bases) && maps_step(
            mid,
            p1,
            mid.dirty_list(4),
            resident,
            luma,
            passes,
        );
    assert(only_marks(p0, mid));
    lemma_marks_keep_ready(p0, mid, resident);
    let maps = mid.dirty_list(4);
    lemma_dirty_list(mid, 4);
    let s = choose|s: Seq<Painter>| #[trigger]
        are_put(s, maps, passes, resident, luma) && s[0] == mid && s.last() == p1;
    lemma_maps_settle(s, maps, passes, resident, luma, maps.len() as int);
    assert(s[maps.len() as int] == p1);
}

proof fn lemma_same_layers(a: Seq<PaintDocument>, b: Seq<PaintDocument>)
    requires
        a.len() == b.len(),
        forall|i: int| 0 <= i < a.len() ==> (#[trigger] a[i]).layers == b[i].layers,
    ensures
        crate::maps::all_stack_textures(a) == crate::maps::all_stack_textures(b),
    decreases a.len(),
{
    if a.len() > 0 {
        assert(a[a.len() - 1].layers == b[b.len() - 1].layers);
        let x = a.drop_last();
        let y = b.drop_last();
        assert forall|i: int| 0 <= i < x.len() implies (#[trigger] x[i]).layers == y[i].layers by {
            assert(x[i] == a[i]);
        }
        lemma_same_layers(x, y);
    }
}

proof fn lemma_seed_keeps(p0: Painter, p1: Painter, resident: Seq<Handle>, textures: Seq<Handle>)
    requires
        p0.wf(),
        p0.is_all_resident(resident),
        seed_step(p0, p1, resident, textures),
    ensures
        p1.wf(),
        p1.is_all_resident(resident),
        !p1.needs_map_seed,
{
    lemma_same_layers(p0.docs@, p1.docs@);
    assert(p1.map_textures() == p0.map_textures());
    assert forall|i: int| 0 <= i < 4 implies (#[trigger] p1.docs@[i]).wf() && p1.docs@[i].is_tiled(
        p1.udim_ids@,
    ) by {
        assert(p0.docs@[i].wf());
        assert(p0.docs@[i].is_tiled(p0.udim_ids@));
    }
}

impl Painter {
    /// Puts some maps together, one after the other.
    fn put_maps<F: Fn(Rgba) -> u32>(
        &mut self,
        maps: &Vec<PaintMap>,
        resident: &Vec<Handle>,
        luma: &F,
    ) -> (passes: Vec<Vec<TilePass>>)
        requires
            old(self).wf(),
            forall|c: Rgba| call_requires(*luma, (c,)),
        ensures
            final(self).wf(),
            maps_step(*old(self), *final(self), maps@, resident@, *luma, passes@),
    {
        let mut passes: Vec<Vec<TilePass>> = Vec::new();
        let ghost mut t: Seq<Painter> = seq![*self];
        let mut k: usize = 0;
        while k < maps.len()
            invariant
                k <= maps@.len(),
                self.wf(),
                forall|c: Rgba| call_requires(*luma, (c,)),
                passes@.len() == k,
                t.len() == k + 1,
                t[0] == *old(self),
                t[k as int] == *self,
                are_put(t, maps@.take(k as int), passes@, resident@, *luma),
            decreases maps@.len() - k,
        {
            let ghost before = t;
            let ghost done = passes@;
            passes.push(self.plan_map(maps[k], resident, luma));
            proof {
                t = t.push(*self);
                lemma_put_more(before, t, maps@, done, passes@, resident@, *luma, k as int);
            }
            k += 1;
        }
        assert(maps@.take(k as int) =~= maps@);
        passes
    }

    fn fill_all(&mut self, resident: &Vec<Handle>) -> (r: (Vec<Handle>, Vec<Filling>))
        requires
            old(self).wf(),
        ensures
            final(self).wf(),
            fill_step(*old(self), *final(self), resident@, r.0@, r.1@),
    {
        let seeds = self.seed_maps(resident);
        let fillings = self.prepare_layers(resident);
        (seeds, fillings)
    }

    fn stamp_all(
        &mut self,
        alphas: &Vec<BrushAlpha>,
        resident: &Vec<Handle>,
    ) -> (r: (Vec<PendingStamp>, StampPlan))
        requires
            old(self).wf(),
        ensures
            final(self).wf(),
            stamp_step(*old(self), *final(self), alphas@, resident@, r.0@, r.1),
    {
        let stamping = self.plan_stamps(alphas, resident);
        let stamps = self.take_pending_stamps();
        self.note_stamped(&stamping, stamps.len());
        (stamps, stamping)
    }

    fn put_all<F: Fn(Rgba) -> u32>(&mut self, resident: &Vec<Handle>, luma: &F) -> (r: (
        Vec<Handle>,
        Vec<Vec<TilePass>>,
    ))
        requires
            old(self).wf(),
            forall|c: Rgba| call_requires(*luma, (c,)),
        ensures
            final(self).wf(),
            put_step(*old(self), *final(self), resident@, *luma, r.0@, r.1@),
    {
        let bases = self.link_channels(resident);
        let maps = self.dirty_maps();
        let passes = self.put_maps(&maps, resident, luma);
        (bases, passes)
    }

    /// Plans a frame: what is filled, stamped and put together, in that order. Once all textures
    /// are on the device, nothing is left to do after it.
    pub fn plan_frame<F: Fn(Rgba) -> u32>(
        &mut self,
        alphas: &Vec<BrushAlpha>,
        resident: &Vec<Handle>,
        luma: &F,
    ) -> (plan: FramePlan)
        requires
            old(self).wf(),
            forall|c: Rgba| call_requires(*luma, (c,)),
        ensures
            final(self).wf(),
            is_frame(*old(self), *final(self), alphas@, resident@, *luma, plan),
            old(self).is_all_resident(resident@) ==> final(self).is_settled(),
    {
        let ghost p0 = *self;
        let (seeds, fillings) = self.fill_all(resident);
        let ghost a = *self;
        let (stamps, stamping) = self.stamp_all(alphas, resident);
        let ghost b = *self;
        let (bases, passes) = self.put_all(resident, luma);
        let plan = FramePlan { seeds, fillings, stamps, stamping, bases, passes };
        proof {
            lemma_is_frame(p0, a, b, *self, alphas@, resident@, *luma, plan);
            if p0.is_all_resident(resident@) {
                law_a_frame_settles(p0, *self, alphas@, resident@, *luma, plan);
            }
        }
        plan
    }
}

proof fn lemma_is_frame<F: Fn(Rgba) -> u32>(
    p0: Painter,
    a: Painter,
    b: Painter,
    p1: Painter,
    alphas: Seq<BrushAlpha>,
    resident: Seq<Handle>,
    luma: F,
    plan: FramePlan,
)
    requires
        fill_step(p0, a, resident, plan.seeds@, plan.fillings@),
        stamp_step(a, b, alphas, resident, plan.stamps@, plan.stamping),
        put_step(b, p1, resident, luma, plan.bases@, plan.passes@),
    ensures
        is_frame(p0, p1, alphas, resident, luma, plan),
{
    reveal(is_frame);
}

proof fn lemma_put_more<F: Fn(Rgba) -> u32>(
    before: Seq<Painter>,
    now: Seq<Painter>,
    maps: Seq<PaintMap>,
    done: Seq<Vec<TilePass>>,
    passes: Seq<Vec<TilePass>>,
    resident: Seq<Handle>,
    luma: F,
    k: int,
)
    requires
        0 <= k < maps.len(),
        are_put(before, maps.take(k), done, resident, luma),
        now == before.push(now.last()),
        passes == done.push(passes.last()),
        map_step(before.last(), now.last(), maps[k], resident, luma, passes.last()@),
    ensures
        are_put(now, maps.take(k + 1), passes, resident, luma),
{
    let some = maps.take(k + 1);
    assert forall|j: int| 0 <= j < some.len() implies map_step(
        #[trigger] now[j],
        now[j + 1],
        some[j],
        resident,
        luma,
        passes[j]@,
    ) by {
        if j < k {
            assert(now[j] == before[j]);
            assert(now[j + 1] == before[j + 1]);
            assert(passes[j] == done[j]);
            assert(maps.take(k)[j] == some[j]);
        }
    }
}

/// A texture holds a tile: it is the first one and the number is the first in use, or it comes
/// later and brings the number along.
pub open spec fn holds_tile(
    first: Option<Handle>,
    extra: Seq<Tile>,
    ids: Seq<u32>,
    udim: u32,
    h: Handle,
) -> bool {
    ||| first == Some(h) && udim == if ids.len() == 0 {
        1001u32
    } else {
        ids[0]
    }
    ||| exists|j: int| 0 <= j < extra.len() && #[trigger] extra[j] == (udim, h)
}

proof fn lemma_holds_tile(
    first: Option<Handle>,
    extra: Seq<Tile>,
    ids: Seq<u32>,
    udim: u32,
)
    ensures
        match tile_texture(crate::paint::tiles_of(ids, first, extra), udim) {
            Some(h) => holds_tile(first, extra, ids, udim, h),
            None => ids.len() > 0 || extra.len() == 0 ==> forall|h: Handle|
                !(#[trigger] holds_tile(first, extra, ids, udim, h)),
        },
{
    let tiles = crate::paint::tiles_of(ids, first, extra);
    lemma_found_tile(tiles, udim);
    if tile_texture(tiles, udim) is None && (ids.len() > 0 || extra.len() == 0) {
        assert forall|h: Handle| !(#[trigger] holds_tile(first, extra, ids, udim, h)) by {
            if holds_tile(first, extra, ids, udim, h) {
                if exists|j: int| 0 <= j < extra.len() && #[trigger] extra[j] == (udim, h) {
                    let j = choose|j: int| 0 <= j < extra.len() && #[trigger] extra[j] == (udim, h);
                    match first {
                        Some(f) => {
                            assert(tiles[j + 1] == extra[j]);
                        },
                        None => {
                            assert(tiles[j] == extra[j]);
                        },
                    }
                } else {
                    assert(tiles[0] == (udim, h));
                }
            }
        }
    }
    match tile_texture(tiles, udim) {
        Some(h) => {
            let j = choose|j: int| 0 <= j < tiles.len() && #[trigger] tiles[j] == (udim, h);
            match first {
                Some(f) => {
                    if j > 0 {
                        assert(extra[j - 1] == (udim, h));
                    }
                },
                None => {
                    assert(extra[j] == (udim, h));
                },
            }
        },
        None => {},
    }
}

proof fn lemma_found_tile(tiles: Seq<Tile>, udim: u32)
    ensures
        match tile_texture(tiles, udim) {
            Some(h) => exists|j: int| 0 <= j < tiles.len() && #[trigger] tiles[j] == (udim, h),
            None => forall|j: int| 0 <= j < tiles.len() ==> (#[trigger] tiles[j]).0 != udim,
        },
    decreases tiles.len(),
{
    if tiles.len() > 0 {
        if tiles[0].0 == udim {
            assert(tiles[0] == (udim, tiles[0].1));
        } else {
            let rest = tiles.skip(1);
            lemma_found_tile(rest, udim);
            match tile_texture(rest, udim) {
                Some(h) => {
                    let j = choose|j: int| 0 <= j < rest.len() && #[trigger] rest[j] == (udim, h);
                    assert(tiles[j + 1] == (udim, h));
                },
                None => {
                    assert forall|j: int| 0 <= j < tiles.len() implies (#[trigger] tiles[j]).0
                        != udim by {
                        if j > 0 {
                            assert(rest[j - 1] == tiles[j]);
                        }
                    }
                },
            }
        }
    }
}

/// Where in a stack the layers stand that are shown: those that are visible and more than a
/// thousandth opaque, from the bottom to the top.
pub open spec fn are_shown_at(layers: Seq<Layer>, at: Seq<int>) -> bool {
    &&& forall|a: int, b: int| 0 <= a < b < at.len() ==> #[trigger] at[a] < #[trigger] at[b]
    &&& forall|a: int| 0 <= a < at.len() ==> 0 <= #[trigger] at[a] < layers.len()
    &&& forall|i: int|
        0 <= i < layers.len() ==> (at.contains(i) <==> {
            let l = #[trigger] layers[i];
            l.visible && crate::bits::is_ordered(l.opacity) && crate::bits::value(l.opacity)
                > crate::bits::value(0x3a83_126f)
        })
}

proof fn lemma_shown_at(layers: Seq<Layer>) -> (at: Seq<int>)
    ensures
        are_shown_at(layers, at),
        at.len() == seen(layers).len(),
        forall|k: int| 0 <= k < at.len() ==> seen(layers)[k] == layers[#[trigger] at[k]],
    decreases layers.len(),
{
    if layers.len() == 0 {
        Seq::empty()
    } else {
        let rest = layers.drop_last();
        let before = lemma_shown_at(rest);
        let n = layers.len() - 1;
        let l = layers[n];
        if crate::bits::is_ordered(l.opacity) {
            crate::bits::law_keys_order_numbers(0x3a83_126f, l.opacity);
        }
        let at = if l.is_seen() {
            before.push(n)
        } else {
            before
        };
        assert forall|i: int| 0 <= i < layers.len() implies (at.contains(i) <==> {
            let l = #[trigger] layers[i];
            l.visible && crate::bits::is_ordered(l.opacity) && crate::bits::value(l.opacity)
                > crate::bits::value(0x3a83_126f)
        }) by {
            if i < n {
                assert(rest[i] == layers[i]);
                if before.contains(i) {
                    let k = choose|k: int| 0 <= k < before.len() && before[k] == i;
                    assert(at[k] == i);
                }
                if at.contains(i) {
                    let k = choose|k: int| 0 <= k < at.len() && at[k] == i;
                    assert(before[k] == i);
                }
            } else if l.is_seen() {
                assert(at[before.len() as int] == n);
            }
        }
        assert forall|k: int| 0 <= k < at.len() implies seen(layers)[k] == layers[#[trigger] at[k]] by {
            if k < before.len() {
                assert(at[k] == before[k]);
                assert(rest[before[k]] == layers[before[k]]);
            }
        }
        at
    }
}

/// What is put onto a tile for a layer: its own opacity and kind; its filling, which on the maps of
/// numbers is one brightness in every channel; the texture that holds the tile, if it is painted;
/// and the mask that holds the tile.
pub open spec fn is_picture_of<F: Fn(Rgba) -> u32>(
    s: StackLayer,
    l: Layer,
    map: PaintMap,
    ids: Seq<u32>,
    udim: u32,
    luma: F,
) -> bool {
    &&& s.opacity == l.opacity
    &&& s.kind == l.kind
    &&& map is Albedo || map is Normal ==> s.fill == l.fill
    &&& map is Metallic || map is Roughness ==> call_ensures(luma, (l.fill,), s.fill.r)
        && s.fill.g == s.fill.r && s.fill.b == s.fill.r && s.fill.a == 0x3f80_0000
    &&& l.kind == LayerKind::Fill ==> s.content is None
    &&& l.kind == LayerKind::Paint ==> s.content is Some && holds_tile(
        l.tex,
        l.extra_tex@,
        ids,
        udim,
        s.content->0,
    )
    &&& s.mask is Some ==> holds_tile(l.mask, l.extra_mask@, ids, udim, s.mask->0)
    &&& s.mask is None && ids.len() > 0 ==> forall|h: Handle|
        !(#[trigger] holds_tile(l.mask, l.extra_mask@, ids, udim, h))
    &&& s.mask is None && l.extra_mask@.len() == 0 ==> forall|h: Handle|
        !(#[trigger] holds_tile(l.mask, l.extra_mask@, ids, udim, h))
}

/// A tile is put together on its base colour, in the channels of its map, from the layers that are
/// shown, from the bottom to the top, each as the user set it. If one of them cannot be put onto
/// the tile, only the base colour is; a stack of fillings without masks always can.
pub proof fn law_a_pass_shows_the_stack<F: Fn(Rgba) -> u32>(
    pass: TilePass,
    d: PaintDocument,
    map: PaintMap,
    ids: Seq<u32>,
    tile: Tile,
    resident: Seq<Handle>,
    luma: F,
) -> (at: Seq<int>)
    requires
        is_pass(pass, d, map, ids, tile, resident, luma),
    ensures
        pass.dst == tile.1,
        pass.base == d.base_rgba,
        pass.normals <==> map is Normal,
        map is Albedo || map is Normal ==> pass.channels == (Rgba {
            r: 0x3f80_0000,
            g: 0x3f80_0000,
            b: 0x3f80_0000,
            a: 0x3f80_0000,
        }),
        map is Roughness ==> pass.channels == (Rgba { r: 0, g: 0x3f80_0000, b: 0, a: 0 }),
        map is Metallic ==> pass.channels == (Rgba { r: 0, g: 0, b: 0x3f80_0000, a: 0 }),
        are_shown_at(d.layers@, at),
        pass.layers@.len() == 0 || pass.layers@.len() == at.len(),
        forall|k: int|
            0 <= k < pass.layers@.len() ==> is_picture_of(
                #[trigger] pass.layers@[k],
                d.layers@[at[k]],
                map,
                ids,
                tile.0,
                luma,
            ),
        (forall|i: int| 0 <= i < d.layers@.len() ==> (#[trigger] d.layers@[i]).kind
            == LayerKind::Fill && d.layers@[i].mask is None && d.layers@[i].extra_mask@.len() == 0
            && !d.layers@[i].needs_clear && d.layers@[i].mask_init is None)
            ==> pass.layers@.len() == at.len(),
{
    let at = lemma_shown_at(d.layers@);
    assert forall|k: int| 0 <= k < pass.layers@.len() implies is_picture_of(
        #[trigger] pass.layers@[k],
        d.layers@[at[k]],
        map,
        ids,
        tile.0,
        luma,
    ) by {
        let l = seen(d.layers@)[k];
        assert(l == d.layers@[at[k]]);
        assert(l.is_put(pass.layers@[k], map, ids, tile.0, luma));
        assert(at.contains(at[k]));
        lemma_holds_tile(l.tex, l.extra_tex@, ids, tile.0);
        lemma_holds_tile(l.mask, l.extra_mask@, ids, tile.0);
        assert(is_stack_ready(d.layers@, ids, tile.0, resident));
        crate::bits::law_keys_order_numbers(0x3a83_126f, l.opacity);
        assert(l.is_seen());
        assert(l.is_ready(ids, tile.0, resident));
    }
    at
}

/// The opacities of a tile's pass are those of the shown layers: two stacks that differ in the
/// opacity of one shown layer alone give passes that differ in that opacity alone.
pub proof fn law_opacity_goes_through<F: Fn(Rgba) -> u32>(
    a: Seq<StackLayer>,
    b: Seq<StackLayer>,
    layers: Seq<Layer>,
    i: int,
    opacity: u32,
    map: PaintMap,
    ids: Seq<u32>,
    udim: u32,
    luma: F,
)
    requires
        0 <= i < layers.len(),
        layers[i].visible,
        crate::bits::is_less(FAINT, layers[i].opacity),
        crate::bits::is_less(FAINT, opacity),
        is_stack_put(a, layers, map, ids, udim, luma),
        is_stack_put(
            b,
            layers.update(i, Layer { opacity, ..layers[i] }),
            map,
            ids,
            udim,
            luma,
        ),
    ensures
        a.len() == b.len(),
        exists|k: int|
            0 <= k < a.len() && (#[trigger] a[k]).opacity == layers[i].opacity && b[k].opacity
                == opacity && forall|j: int|
                0 <= j < a.len() && j != k ==> (#[trigger] b[j]).opacity == a[j].opacity,
{
    let other = layers.update(i, Layer { opacity, ..layers[i] });
    lemma_seen_updated(layers, i, opacity);
    let k = choose|k: int|
        0 <= k < seen(layers).len() && #[trigger] seen(layers)[k] == layers[i] && seen(other)
            == seen(layers).update(k, other[i]);
    assert(seen(layers)[k].is_put(a[k], map, ids, udim, luma));
    assert(seen(other)[k].is_put(b[k], map, ids, udim, luma));
    assert forall|j: int| 0 <= j < a.len() && j != k implies (#[trigger] b[j]).opacity
        == a[j].opacity by {
        assert(seen(layers)[j].is_put(a[j], map, ids, udim, luma));
        assert(seen(other)[j].is_put(b[j], map, ids, udim, luma));
    }
}

proof fn lemma_seen_updated(layers: Seq<Layer>, i: int, opacity: u32)
    requires
        0 <= i < layers.len(),
        layers[i].visible,
        crate::bits::is_less(FAINT, layers[i].opacity),
        crate::bits::is_less(FAINT, opacity),
    ensures
        ({
            let other = layers.update(i, Layer { opacity, ..layers[i] });
            exists|k: int|
                0 <= k < seen(layers).len() && #[trigger] seen(layers)[k] == layers[i] && seen(
                    other,
                ) == seen(layers).update(k, other[i])
        }),
    decreases layers.len(),
{
    let other = layers.update(i, Layer { opacity, ..layers[i] });
    let n = layers.len() - 1;
    let rest = layers.drop_last();
    if i == n {
        assert(other.drop_last() =~= rest);
        let k = seen(rest).len() as int;
        assert(seen(layers)[k] == layers[i]);
        assert(seen(other) =~= seen(layers).update(k, other[i]));
    } else {
        lemma_seen_updated(rest, i, opacity);
        let less = rest.update(i, Layer { opacity, ..rest[i] });
        assert(other.drop_last() =~= less);
        let k = choose|k: int|
            0 <= k < seen(rest).len() && #[trigger] seen(rest)[k] == rest[i] && seen(less)
                == seen(rest).update(k, less[i]);
        assert(seen(layers)[k] == layers[i]);
        assert(seen(other) =~= seen(layers).update(k, other[i]));
    }
}

/// Of a list of tiles, exactly those are at hand whose textures are on the device, in their order:
/// a tile alone is at hand or not, and the tiles of two lists behind each other are those of the
/// first and then those of the second.
pub proof fn law_at_hand_is_on_the_device(
    a: Seq<Tile>,
    b: Seq<Tile>,
    t: Tile,
    resident: Seq<Handle>,
)
    ensures
        resident.contains(t.1) ==> at_hand(seq![t], resident) == seq![t],
        !resident.contains(t.1) ==> at_hand(seq![t], resident) == Seq::<Tile>::empty(),
        at_hand(a + b, resident) == at_hand(a, resident) + at_hand(b, resident),
    decreases b.len(),
{
    reveal_with_fuel(at_hand, 2);
    assert(seq![t].drop_last() =~= Seq::<Tile>::empty());
    assert(Seq::<Tile>::empty().push(t) =~= seq![t]);
    if b.len() == 0 {
        assert(a + b =~= a);
        assert(at_hand(a, resident) + at_hand(b, resident) =~= at_hand(a, resident));
    } else {
        law_at_hand_is_on_the_device(a, b.drop_last(), t, resident);
        assert((a + b).drop_last() =~= a + b.drop_last());
        assert((a + b).last() == b.last());
        let front = at_hand(b.drop_last(), resident);
        assert(at_hand(a, resident) + front.push(b.last()) =~= (at_hand(a, resident) + front).push(
            b.last(),
        ));
    }
}

/// What a stamp does goes by what was chosen: the eraser erases and nothing else does; a normal
/// stamp is used on the normal map unless a mask is painted, else a brush shape, by its coverage if
/// it says so. Every tile that is stamped is on the device.
pub proof fn law_stamps_go_by_what_was_chosen(
    p: Painter,
    plan: StampPlan,
    alphas: Seq<BrushAlpha>,
    resident: Seq<Handle>,
    i: int,
)
    requires
        p.is_stamping(plan, alphas, resident),
    ensures
        ({
            let d = p.docs@[p.paint_map.position()];
            let l = d.layers@[d.active as int];
            let mask = d.active < d.layers@.len() && l.mask is Some && (l.kind == LayerKind::Fill
                || d.paint_target == PaintTarget::Mask);
            let normals = p.paint_map == PaintMap::Normal && !mask;
            &&& p.tool == PaintTool::Eraser ==> plan.erase
            &&& p.tool == PaintTool::Paint ==> !plan.erase
            &&& normals ==> plan.normals && plan.index == p.active_nrm && !plan.coverage
            &&& !normals ==> !plan.normals && plan.index == p.active_alpha
            &&& !normals && p.active_alpha < alphas.len() ==> plan.coverage
                == alphas[p.active_alpha as int].coverage_stamp
            &&& plan.coverage ==> plan.index < alphas.len()
            &&& 0 <= i < plan.tiles@.len() ==> resident.contains(plan.tiles@[i].1)
        }),
{
    if 0 <= i < plan.tiles@.len() {
        lemma_at_hand_resident(p.stamp_tiles(), resident, i);
    }
}

proof fn lemma_at_hand_resident(tiles: Seq<Tile>, resident: Seq<Handle>, i: int)
    requires
        0 <= i < at_hand(tiles, resident).len(),
    ensures
        resident.contains(at_hand(tiles, resident)[i].1),
    decreases tiles.len(),
{
    let rest = tiles.drop_last();
    if i < at_hand(rest, resident).len() {
        lemma_at_hand_resident(rest, resident, i);
    }
}

/// A list of tiles is filled from its front up to the first one that is not on the device.
pub proof fn law_filling_stops_at_the_first_missing(
    tiles: Seq<Tile>,
    texel: [u8; 4],
    resident: Seq<Handle>,
    k: int,
)
    requires
        0 <= k < tiles.len(),
    ensures
        ({
            let f = fillings(tiles, texel, resident);
            &&& f.len() <= tiles.len()
            &&& k < f.len() ==> f[k].texture == tiles[k].1 && f[k].texel == texel
                && resident.contains(tiles[k].1)
            &&& k == f.len() ==> !resident.contains(tiles[k].1)
        }),
    decreases tiles.len(),
{
    let rest = tiles.skip(1);
    if resident.contains(tiles[0].1) {
        if k > 0 {
            law_filling_stops_at_the_first_missing(rest, texel, resident, k - 1);
            assert(rest[k - 1] == tiles[k]);
        } else if rest.len() > 0 {
            law_filling_stops_at_the_first_missing(rest, texel, resident, 0);
        }
    }
}

/// Where everything is on the device, a layer that waits to be cleared has all its textures made
/// transparent, a mask that waits for its first colour gets it on all of its own, and a layer that
/// waits for nothing is left alone. After that it waits for nothing, and is the same otherwise.
pub proof fn law_what_waits_is_filled(l: Layer, ids: Seq<u32>, resident: Seq<Handle>, k: int)
    requires
        all_resident(crate::paint::textures(l.content(ids)), resident),
        all_resident(crate::paint::textures(l.mask_parts(ids)), resident),
    ensures
        ({
            let f = l.own_fillings(ids, resident);
            let n = if l.needs_clear {
                l.content(ids).len() as int
            } else {
                0
            };
            let m = if l.mask_init is Some {
                l.mask_parts(ids).len() as int
            } else {
                0
            };
            let p = l.prepared(ids, resident);
            &&& f.len() == n + m
            &&& 0 <= k < n ==> f[k].texture == l.content(ids)[k].1 && f[k].texel == [0u8, 0, 0, 0]
            &&& n <= k < n + m ==> f[k].texture == l.mask_parts(ids)[k - n].1 && Some(f[k].texel)
                == l.mask_init
            &&& !p.needs_clear && p.mask_init is None
            &&& p.tex == l.tex && p.mask == l.mask && p.opacity == l.opacity && p.fill == l.fill
            &&& p.extra_tex == l.extra_tex && p.extra_mask == l.extra_mask && p.kind == l.kind
            &&& p.visible == l.visible && p.name == l.name
        }),
{
    lemma_all_ready(l.content(ids), resident);
    lemma_all_ready(l.mask_parts(ids), resident);
}

/// As long as a texture of its content is missing a layer goes on waiting to be cleared, and so
/// does a mask for its first colour.
pub proof fn law_what_is_missing_is_waited_for(
    l: Layer,
    ids: Seq<u32>,
    resident: Seq<Handle>,
    k: int,
)
    ensures
        0 <= k < l.content(ids).len() && !resident.contains(l.content(ids)[k].1) ==> l.prepared(
            ids,
            resident,
        ).needs_clear == l.needs_clear,
        0 <= k < l.mask_parts(ids).len() && !resident.contains(l.mask_parts(ids)[k].1)
            ==> l.prepared(ids, resident).mask_init == l.mask_init,
{
    if 0 <= k < l.content(ids).len() {
        law_filling_stops_at_the_first_missing(l.content(ids), [0u8, 0, 0, 0], resident, k);
    }
    if 0 <= k < l.mask_parts(ids).len() {
        law_filling_stops_at_the_first_missing(l.mask_parts(ids), [0u8, 0, 0, 0], resident, k);
    }
}

/// The maps are seeded once: all of their textures, as soon as they are on the device, after which
/// every stack has to be put together again. No layer changes.
pub proof fn law_maps_are_seeded_once(
    p0: Painter,
    p1: Painter,
    resident: Seq<Handle>,
    textures: Seq<Handle>,
    i: int,
)
    requires
        seed_step(p0, p1, resident, textures),
        0 <= i < p0.docs@.len(),
    ensures
        p1.docs@[i].layers == p0.docs@[i].layers && p1.docs@[i].active == p0.docs@[i].active,
        !p0.needs_map_seed ==> textures.len() == 0 && p1 == p0,
        p0.needs_map_seed && textures.len() == 0 ==> p1 == p0,
        textures.len() > 0 ==> {
            &&& p0.needs_map_seed && !p1.needs_map_seed
            &&& textures.len() == 3 + p0.extra_albedo@.len() + p0.extra_mr@.len()
                + p0.extra_nrm@.len()
            &&& textures[0] == p0.albedo_tex && textures[1] == p0.mr_tex && textures[2]
                == p0.nrm_tex
            &&& p1.docs@[i].composite_dirty
            &&& forall|k: int|
                0 <= k < textures.len() ==> resident.contains(#[trigger] textures[k])
        },
        p0.needs_map_seed && all_resident(p0.map_textures(), resident) ==> textures.len() > 0,
{
}

/// Exactly the maps are put together again whose stacks have changed.
pub proof fn law_changed_maps_are_put_together(p: Painter, map: PaintMap)
    requires
        p.wf(),
    ensures
        p.dirty_list(4).contains(map) <==> p.docs@[map.position()].composite_dirty,
{
    lemma_listed(p, 4, map);
}

proof fn lemma_listed(p: Painter, n: int, map: PaintMap)
    requires
        0 <= n <= 4,
    ensures
        p.dirty_list(n).contains(map) <==> map.position() < n
            && p.docs@[map.position()].composite_dirty,
    decreases n,
{
    if n > 0 {
        lemma_listed(p, n - 1, map);
        let before = p.dirty_list(n - 1);
        let m = PaintMap::ALL@[n - 1];
        assert(m.position() == n - 1);
        if before.contains(map) {
            let k = choose|k: int| 0 <= k < before.len() && before[k] == map;
            assert(before.push(m)[k] == map);
        }
        if before.push(m).contains(map) {
            let k = choose|k: int| 0 <= k < before.len() + 1 && before.push(m)[k] == map;
            if k < before.len() {
                assert(before[k] == map);
            }
        }
        assert(before.push(m)[before.len() as int] == m);
    }
}

/// A change of metallic or of roughness has both of them put together, on a fresh base: exactly
/// the textures that they share are filled anew, as far as they are on the device. Otherwise
/// nothing is.
pub proof fn law_shared_maps_go_together(
    p0: Painter,
    p1: Painter,
    resident: Seq<Handle>,
    textures: Seq<Handle>,
)
    requires
        p0.wf(),
        link_step(p0, p1, resident, textures),
    ensures
        p1.docs@[1].composite_dirty == (p0.docs@[1].composite_dirty || p0.docs@[2].composite_dirty),
        p1.docs@[2].composite_dirty == p1.docs@[1].composite_dirty,
        p1.docs@[0] == p0.docs@[0] && p1.docs@[3] == p0.docs@[3],
        p1.docs@[1].layers == p0.docs@[1].layers && p1.docs@[2].layers == p0.docs@[2].layers,
        !p1.docs@[1].composite_dirty ==> textures.len() == 0,
        p1.docs@[1].composite_dirty && resident.contains(p0.mr_tex) && p0.extra_mr@.len() == 0
            ==> textures == seq![p0.mr_tex],
        p1.docs@[1].composite_dirty && all_resident(
            crate::paint::textures(p0.map_tiles(PaintMap::Metallic)),
            resident,
        ) ==> textures == seq![p0.mr_tex] + crate::paint::textures(p0.extra_mr@),
{
    let tiles = p0.map_tiles(PaintMap::Metallic);
    if p0.extra_mr@.len() == 0 {
        let t = (p0.first_tile(), p0.mr_tex);
        assert(tiles =~= seq![t]);
        law_at_hand_is_on_the_device(Seq::empty(), Seq::empty(), t, resident);
        assert(crate::paint::textures(seq![t]) =~= seq![p0.mr_tex]);
    }
    if all_resident(crate::paint::textures(tiles), resident) {
        lemma_all_at_hand(tiles, resident);
        assert(crate::paint::textures(tiles) =~= seq![p0.mr_tex] + crate::paint::textures(
            p0.extra_mr@,
        ));
    }
}

proof fn lemma_all_at_hand(tiles: Seq<Tile>, resident: Seq<Handle>)
    requires
        all_resident(crate::paint::textures(tiles), resident),
    ensures
        at_hand(tiles, resident) == tiles,
    decreases tiles.len(),
{
    if tiles.len() > 0 {
        let rest = tiles.drop_last();
        let all = crate::paint::textures(tiles);
        assert(resident.contains(all[tiles.len() - 1]));
        assert forall|i: int| 0 <= i < rest.len() implies resident.contains(
            #[trigger] crate::paint::textures(rest)[i],
        ) by {
            assert(all[i] == crate::paint::textures(rest)[i]);
        }
        lemma_all_at_hand(rest, resident);
        assert(rest.push(tiles.last()) =~= tiles);
    }
    assert(at_hand(tiles, resident) =~= tiles);
}

/// A layer waits for nothing, all its textures are on the device, and if it is painted it has one
/// for a tile.
pub open spec fn is_at_hand(l: Layer, ids: Seq<u32>, udim: u32, resident: Seq<Handle>) -> bool {
    &&& !l.needs_clear && l.mask_init is None
    &&& all_resident(crate::paint::textures(l.content(ids)), resident)
    &&& all_resident(crate::paint::textures(l.mask_parts(ids)), resident)
    &&& l.kind == LayerKind::Paint ==> exists|h: Handle| #[trigger]
        holds_tile(l.tex, l.extra_tex@, ids, udim, h)
}

/// A tile shows all layers that are shown as soon as all of them are at hand.
pub proof fn law_stacks_at_hand_are_shown_whole<F: Fn(Rgba) -> u32>(
    pass: TilePass,
    d: PaintDocument,
    map: PaintMap,
    ids: Seq<u32>,
    tile: Tile,
    resident: Seq<Handle>,
    luma: F,
)
    requires
        is_pass(pass, d, map, ids, tile, resident, luma),
        ids.len() > 0,
        forall|i: int|
            0 <= i < d.layers@.len() ==> is_at_hand(#[trigger] d.layers@[i], ids, tile.0, resident),
    ensures
        exists|at: Seq<int>| #[trigger]
            are_shown_at(d.layers@, at) && pass.layers@.len() == at.len(),
{
    let at = lemma_shown_at(d.layers@);
    assert forall|i: int|
        0 <= i < d.layers@.len() && (#[trigger] d.layers@[i]).is_seen() implies d.layers@[i].is_ready(
        ids,
        tile.0,
        resident,
    ) by {
        let l = d.layers@[i];
        assert(is_at_hand(l, ids, tile.0, resident));
        law_prepared_layers_are_ready(l, ids, tile.0, resident);
        lemma_holds_tile(l.tex, l.extra_tex@, ids, tile.0);
        let p = l.prepared(ids, resident);
        assert(p.needs_clear == l.needs_clear && p.mask_init == l.mask_init);
        assert(p == l);
    }
    assert(is_stack_ready(d.layers@, ids, tile.0, resident));
}

/// Every stamp that waited is made, in its order, and none waits after that; where a stamp and a
/// tile to take it come together, the stack of the current map has to be put together again. No
/// other stack and no layer changes.
pub proof fn law_waiting_stamps_are_made(
    p0: Painter,
    p1: Painter,
    alphas: Seq<BrushAlpha>,
    resident: Seq<Handle>,
    stamps: Seq<PendingStamp>,
    stamping: StampPlan,
    i: int,
)
    requires
        p0.wf(),
        stamp_step(p0, p1, alphas, resident, stamps, stamping),
        0 <= i < 4,
    ensures
        stamps == p0.pending_stamps@,
        p1.pending_stamps@.len() == 0,
        p1.docs@.len() == 4,
        p1.docs@[i].layers == p0.docs@[i].layers,
        i != p0.paint_map.position() ==> p1.docs@[i] == p0.docs@[i],
        i == p0.paint_map.position() && p0.pending_stamps@.len() > 0 && stamping.tiles@.len() > 0
            ==> p1.docs@[i].composite_dirty,
        p0.pending_stamps@.len() == 0 || stamping.tiles@.len() == 0 ==> p1.docs@[i] == p0.docs@[i],
{
}

/// A map is done exactly if all its tiles are on the device and can have their layers; as long as
/// one is missing it comes again. Its layers and the other maps stay as they are.
pub proof fn law_unfinished_maps_come_again<F: Fn(Rgba) -> u32>(
    p0: Painter,
    p1: Painter,
    map: PaintMap,
    resident: Seq<Handle>,
    luma: F,
    passes: Seq<TilePass>,
    i: int,
    k: int,
)
    requires
        p0.wf(),
        map_step(p0, p1, map, resident, luma, passes),
        0 <= i < 4,
        0 <= k < p0.map_tiles(map).len(),
    ensures
        p1.docs@[i].layers == p0.docs@[i].layers,
        i != map.position() ==> p1.docs@[i] == p0.docs@[i],
        !resident.contains(p0.map_tiles(map)[k].1) ==> p1.docs@[map.position()].composite_dirty,
        !is_stack_ready(
            p0.docs@[map.position()].layers@,
            p0.udim_ids@,
            p0.map_tiles(map)[k].0,
            resident,
        ) ==> p1.docs@[map.position()].composite_dirty,
        p1.docs@[map.position()].composite_dirty ==> exists|j: int|
            0 <= j < p0.map_tiles(map).len() && (!resident.contains(
                (#[trigger] p0.map_tiles(map)[j]).1,
            ) || !is_stack_ready(
                p0.docs@[map.position()].layers@,
                p0.udim_ids@,
                p0.map_tiles(map)[j].0,
                resident,
            )),
        passes.len() <= p0.map_tiles(map).len(),
{
    lemma_at_hand_len(p0.map_tiles(map), resident);
}

proof fn lemma_at_hand_len(tiles: Seq<Tile>, resident: Seq<Handle>)
    ensures
        at_hand(tiles, resident).len() <= tiles.len(),
    decreases tiles.len(),
{
    if tiles.len() > 0 {
        lemma_at_hand_len(tiles.drop_last(), resident);
    }
}

} // verus!
