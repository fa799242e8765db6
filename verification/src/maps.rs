//! The material maps that the stacks are put together into, one texture per tile.

use vstd::prelude::*;

use crate::paint::{push_textures, Layer, PaintDocument, PaintMap, Tile, FIRST_TILE, TEX_SIZE};
use crate::painter::{base_of, seed_texel, Painter};
use crate::scene::Handle;
use crate::text::numbered;

verus! {

/// The maps of a material: one texture each, or one per tile.
pub enum MaterialMaps {
    Single { albedo: Handle, normal: Handle, metallic_roughness: Handle },
    Udim { albedo_tiles: Vec<Tile>, normal_tiles: Vec<Tile>, mr_tiles: Vec<Tile> },
}

/// A first tile and the others.
pub open spec fn with_first(id: u32, first: Handle, extra: Seq<Tile>) -> Seq<Tile> {
    seq![(id, first)] + extra
}

fn tiles_with_first(id: u32, first: Handle, extra: &Vec<Tile>) -> (tiles: Vec<Tile>)
    ensures
        tiles@ == with_first(id, first, extra@),
{
    let mut tiles: Vec<Tile> = Vec::new();
    tiles.push((id, first));
    let mut i: usize = 0;
    while i < extra.len()
        invariant
            i <= extra@.len(),
            tiles@ =~= seq![(id, first)] + extra@.take(i as int),
        decreases extra@.len() - i,
    {
        tiles.push(extra[i]);
        i += 1;
    }
    assert(tiles@ =~= with_first(id, first, extra@));
    tiles
}

impl Painter {
    /// The first tile.
    pub open spec fn first_tile(self) -> u32 {
        if self.udim_ids@.len() > 0 {
            self.udim_ids@[0]
        } else {
            FIRST_TILE
        }
    }

    /// The textures of a map, tile by tile. Metallic and roughness share theirs.
    pub open spec fn map_tiles(self, map: PaintMap) -> Seq<Tile> {
        match map {
            PaintMap::Albedo => with_first(self.first_tile(), self.albedo_tex, self.extra_albedo@),
            PaintMap::Metallic => with_first(self.first_tile(), self.mr_tex, self.extra_mr@),
            PaintMap::Roughness => with_first(self.first_tile(), self.mr_tex, self.extra_mr@),
            PaintMap::Normal => with_first(self.first_tile(), self.nrm_tex, self.extra_nrm@),
        }
    }

    /// The textures of a map, tile by tile.
    pub fn material_map_tiles(&self, map: PaintMap) -> (tiles: Vec<Tile>)
        ensures
            tiles@ == self.map_tiles(map),
    {
        let id: u32 = if self.udim_ids.len() > 0 {
            self.udim_ids[0]
        } else {
            FIRST_TILE
        };
        match map {
            PaintMap::Albedo => tiles_with_first(id, self.albedo_tex, &self.extra_albedo),
            PaintMap::Metallic => tiles_with_first(id, self.mr_tex, &self.extra_mr),
            PaintMap::Roughness => tiles_with_first(id, self.mr_tex, &self.extra_mr),
            PaintMap::Normal => tiles_with_first(id, self.nrm_tex, &self.extra_nrm),
        }
    }

    /// The textures of all maps.
    pub open spec fn map_textures(self) -> Seq<Handle> {
        seq![self.albedo_tex, self.mr_tex, self.nrm_tex] + crate::paint::textures(
            self.extra_albedo@,
        ) + crate::paint::textures(self.extra_mr@) + crate::paint::textures(self.extra_nrm@)
    }

    /// The textures of all maps.
    pub fn dst_map_handles(&self) -> (v: Vec<Handle>)
        ensures
            v@ == self.map_textures(),
    {
        let mut v: Vec<Handle> = Vec::new();
        v.push(self.albedo_tex);
        v.push(self.mr_tex);
        v.push(self.nrm_tex);
        assert(v@ =~= seq![self.albedo_tex, self.mr_tex, self.nrm_tex]);
        push_textures(&mut v, &self.extra_albedo);
        push_textures(&mut v, &self.extra_mr);
        push_textures(&mut v, &self.extra_nrm);
        v
    }

    /// A material that is painted on shows the textures of the maps.
    pub open spec fn shows_maps(self, m: MaterialMaps) -> bool {
        &&& self.udim_ids@.len() <= 1 ==> m == (MaterialMaps::Single {
            albedo: self.albedo_tex,
            normal: self.nrm_tex,
            metallic_roughness: self.mr_tex,
        })
        &&& self.udim_ids@.len() > 1 ==> {
            &&& m matches MaterialMaps::Udim { albedo_tiles, normal_tiles, mr_tiles }
            &&& albedo_tiles@ == self.map_tiles(PaintMap::Albedo)
            &&& normal_tiles@ == self.map_tiles(PaintMap::Normal)
            &&& mr_tiles@ == self.map_tiles(PaintMap::Metallic)
        }
    }

    /// What a material that is painted on shows.
    pub fn paint_maps(&self) -> (m: MaterialMaps)
        ensures
            self.shows_maps(m),
    {
        if self.udim_ids.len() <= 1 {
            return MaterialMaps::Single {
                albedo: self.albedo_tex,
                normal: self.nrm_tex,
                metallic_roughness: self.mr_tex,
            };
        }
        MaterialMaps::Udim {
            albedo_tiles: self.material_map_tiles(PaintMap::Albedo),
            normal_tiles: self.material_map_tiles(PaintMap::Normal),
            mr_tiles: self.material_map_tiles(PaintMap::Metallic),
        }
    }

    /// The textures of the tiles after the first.
    pub open spec fn extra_textures(self) -> Seq<Handle> {
        crate::paint::textures(self.extra_albedo@) + crate::paint::textures(self.extra_mr@)
            + crate::paint::textures(self.extra_nrm@)
    }

    /// Gives up the tiles after the first. Their textures come back.
    pub fn drop_extra_maps(&mut self) -> (freed: Vec<Handle>)
        ensures
            freed@ == old(self).extra_textures(),
            final(self).extra_albedo@ == Seq::<Tile>::empty(),
            final(self).extra_mr@ == Seq::<Tile>::empty(),
            final(self).extra_nrm@ == Seq::<Tile>::empty(),
            *final(self) == (Painter {
                extra_albedo: final(self).extra_albedo,
                extra_mr: final(self).extra_mr,
                extra_nrm: final(self).extra_nrm,
                ..*old(self)
            }),
    {
        let mut freed: Vec<Handle> = Vec::new();
        push_textures(&mut freed, &self.extra_albedo);
        push_textures(&mut freed, &self.extra_mr);
        push_textures(&mut freed, &self.extra_nrm);
        assert(freed@ =~= self.extra_textures());
        self.extra_albedo = Vec::new();
        self.extra_mr = Vec::new();
        self.extra_nrm = Vec::new();
        freed
    }

    /// Goes back to the first tile alone. The textures of the others come back.
    pub fn reset_udim(&mut self) -> (freed: Vec<Handle>)
        ensures
            freed@ == old(self).extra_textures(),
            final(self).udim_ids@ == seq![FIRST_TILE],
            final(self).extra_albedo@ == Seq::<Tile>::empty(),
            final(self).extra_mr@ == Seq::<Tile>::empty(),
            final(self).extra_nrm@ == Seq::<Tile>::empty(),
            *final(self) == (Painter {
                udim_ids: final(self).udim_ids,
                extra_albedo: final(self).extra_albedo,
                extra_mr: final(self).extra_mr,
                extra_nrm: final(self).extra_nrm,
                ..*old(self)
            }),
    {
        let freed = self.drop_extra_maps();
        let mut ids: Vec<u32> = Vec::new();
        ids.push(FIRST_TILE);
        assert(ids@ =~= seq![FIRST_TILE]);
        self.udim_ids = ids;
        freed
    }

    /// New textures for the tiles after the first: three per tile, of which map number `which`
    /// gets its own.
    pub open spec fn dealt(self, fresh: Seq<Handle>, which: int) -> Seq<Tile> {
        Seq::new(
            (self.tiles_wanted() - 1) as nat,
            |i: int| (self.udim_ids@[i + 1], fresh[3 * i + which]),
        )
    }

    /// Gives every tile after the first a texture in each map. The textures that were there come
    /// back.
    pub fn rebuild_extra_maps(&mut self, fresh: Vec<Handle>) -> (freed: Vec<Handle>)
        requires
            fresh@.len() == 3 * (old(self).tiles_wanted() - 1),
        ensures
            freed@ == old(self).extra_textures(),
            final(self).extra_albedo@ == old(self).dealt(fresh@, 0),
            final(self).extra_mr@ == old(self).dealt(fresh@, 1),
            final(self).extra_nrm@ == old(self).dealt(fresh@, 2),
            *final(self) == (Painter {
                extra_albedo: final(self).extra_albedo,
                extra_mr: final(self).extra_mr,
                extra_nrm: final(self).extra_nrm,
                ..*old(self)
            }),
    {
        let freed = self.drop_extra_maps();
        let n: usize = self.udim_ids.len();
        let mut i: usize = 1;
        while i < n
            invariant
                1 <= i,
                i <= n || i == 1,
                n == self.udim_ids@.len(),
                self.tiles_wanted() == old(self).tiles_wanted(),
                self.udim_ids == old(self).udim_ids,
                fresh@.len() == 3 * (old(self).tiles_wanted() - 1),
                self.extra_albedo@ =~= old(self).dealt(fresh@, 0).take(i - 1),
                self.extra_mr@ =~= old(self).dealt(fresh@, 1).take(i - 1),
                self.extra_nrm@ =~= old(self).dealt(fresh@, 2).take(i - 1),
                *self == (Painter {
                    extra_albedo: self.extra_albedo,
                    extra_mr: self.extra_mr,
                    extra_nrm: self.extra_nrm,
                    ..*old(self)
                }),
            decreases n - i,
        {
            assert(3 * (i - 1) + 2 < fresh.len());
            let id: u32 = self.udim_ids[i];
            self.extra_albedo.push((id, fresh[3 * (i - 1)]));
            self.extra_mr.push((id, fresh[3 * (i - 1) + 1]));
            self.extra_nrm.push((id, fresh[3 * (i - 1) + 2]));
            i += 1;
        }
        assert(self.extra_albedo@ =~= old(self).dealt(fresh@, 0));
        assert(self.extra_mr@ =~= old(self).dealt(fresh@, 1));
        assert(self.extra_nrm@ =~= old(self).dealt(fresh@, 2));
        freed
    }
}

/// The textures of all layers of a stack.
pub open spec fn stack_textures(layers: Seq<Layer>) -> Seq<Handle>
    decreases layers.len(),
{
    if layers.len() == 0 {
        Seq::empty()
    } else {
        stack_textures(layers.drop_last()) + layers.last().all_textures()
    }
}

/// The textures of all layers of all stacks.
pub open spec fn all_stack_textures(docs: Seq<PaintDocument>) -> Seq<Handle>
    decreases docs.len(),
{
    if docs.len() == 0 {
        Seq::empty()
    } else {
        all_stack_textures(docs.drop_last()) + stack_textures(docs.last().layers@)
    }
}

/// Adds the items of a list to another one.
pub fn push_all(out: &mut Vec<Handle>, more: Vec<Handle>)
    ensures
        final(out)@ == old(out)@ + more@,
{
    let mut i: usize = 0;
    while i < more.len()
        invariant
            i <= more@.len(),
            out@ =~= old(out)@ + more@.take(i as int),
        decreases more@.len() - i,
    {
        out.push(more[i]);
        i += 1;
    }
    assert(more@.take(i as int) =~= more@);
}

fn push_stack(out: &mut Vec<Handle>, layers: &Vec<Layer>)
    ensures
        final(out)@ == old(out)@ + stack_textures(layers@),
{
    let mut i: usize = 0;
    assert(out@ =~= old(out)@ + stack_textures(layers@.take(0)));
    while i < layers.len()
        invariant
            i <= layers@.len(),
            out@ == old(out)@ + stack_textures(layers@.take(i as int)),
        decreases layers@.len() - i,
    {
        let ghost before = out@;
        push_all(out, layers[i].gpu_handles());
        proof {
            assert(layers@.take(i + 1).drop_last() =~= layers@.take(i as int));
            assert(out@ =~= old(out)@ + stack_textures(layers@.take(i + 1)));
        }
        i += 1;
    }
    assert(layers@.take(i as int) =~= layers@);
}

/// A part of the new textures.
pub open spec fn hand(fresh: Seq<Handle>, i: int, n: nat) -> Seq<Handle> {
    fresh.subrange(i * n, (i + 1) * n)
}

impl Painter {
    /// The stack with which a map begins: one empty layer, of new textures, over the base colour.
    pub open spec fn is_new_doc(self, d: PaintDocument, map: PaintMap, fresh: Seq<Handle>) -> bool {
        &&& d.width == TEX_SIZE
        &&& d.height == TEX_SIZE
        &&& d.base_rgba == crate::painter::base_color(map)
        &&& d.layers@.len() == 1
        &&& self.is_new_layer(d.layers@[0], "Layer "@ + crate::text::decimal(1), fresh)
        &&& d.active == 0
        &&& d.paint_target == crate::paint::PaintTarget::Content
        &&& d.composite_dirty
    }

    fn new_doc(&self, map: PaintMap, fresh: Vec<Handle>) -> (d: PaintDocument)
        requires
            fresh@.len() == self.tiles_wanted(),
        ensures
            self.is_new_doc(d, map, fresh@),
            d.wf(),
    {
        let mut d = PaintDocument::new(TEX_SIZE, TEX_SIZE, base_of(map));
        let layer = self.new_paint_layer(numbered("Layer ", 1), &fresh);
        d.push_layer(layer);
        d
    }

    /// Starts all stacks anew. The textures of the old layers come back, and the maps have to be
    /// filled with their base colours.
    pub fn reset_paint_docs(&mut self, fresh: Vec<Handle>) -> (freed: Vec<Handle>)
        requires
            fresh@.len() == 4 * old(self).tiles_wanted(),
            old(self).docs@.len() == 4,
        ensures
            freed@ == all_stack_textures(old(self).docs@),
            final(self).docs@.len() == 4,
            forall|i: int|
                0 <= i < 4 ==> old(self).is_new_doc(
                    #[trigger] final(self).docs@[i],
                    PaintMap::ALL@[i],
                    hand(fresh@, i, old(self).tiles_wanted()),
                ) && final(self).docs@[i].wf(),
            final(self).needs_map_seed,
            *final(self) == (Painter {
                docs: final(self).docs,
                needs_map_seed: true,
                ..*old(self)
            }),
    {
        let mut freed: Vec<Handle> = Vec::new();
        let mut j: usize = 0;
        assert(freed@ =~= all_stack_textures(self.docs@.take(0)));
        while j < self.docs.len()
            invariant
                j <= self.docs@.len(),
                freed@ == all_stack_textures(self.docs@.take(j as int)),
            decreases self.docs@.len() - j,
        {
            push_stack(&mut freed, &self.docs[j].layers);
            assert(self.docs@.take(j + 1).drop_last() =~= self.docs@.take(j as int));
            j += 1;
        }
        assert(self.docs@.take(j as int) =~= self.docs@);
        let n: usize = self.textures_per_layer();
        let mut docs: Vec<PaintDocument> = Vec::new();
        let mut i: usize = 0;
        while i < 4
            invariant
                i <= 4,
                n == self.tiles_wanted(),
                *self == *old(self),
                fresh@.len() == 4 * n,
                docs@.len() == i,
                forall|k: int|
                    0 <= k < i ==> old(self).is_new_doc(
                        #[trigger] docs@[k],
                        PaintMap::ALL@[k],
                        hand(fresh@, k, n as nat),
                    ) && docs@[k].wf(),
            decreases 4 - i,
        {
            assert(4 * n <= fresh.len());
            let mut mine: Vec<Handle> = Vec::new();
            let mut k: usize = 0;
            while k < n
                invariant
                    i < 4,
                    k <= n,
                    fresh.len() == 4 * n,
                    mine@ =~= hand(fresh@, i as int, n as nat).take(k as int),
                decreases n - k,
            {
                assert(i * n + k < 4 * n) by (nonlinear_arith)
                    requires
                        i < 4,
                        k < n,
                ;
                assert(i * n <= 3 * n) by (nonlinear_arith)
                    requires
                        i <= 3,
                        n >= 0,
                ;
                assert((i + 1) * n == i * n + n) by (nonlinear_arith);
                mine.push(fresh[i * n + k]);
                k += 1;
            }
            assert((i + 1) * n == i * n + n) by (nonlinear_arith);
            assert(mine@ =~= hand(fresh@, i as int, n as nat));
            docs.push(self.new_doc(PaintMap::ALL[i], mine));
            i += 1;
        }
        self.docs = docs;
        self.needs_map_seed = true;
        freed
    }

    /// The textures of the maps with the texels that they have to be filled with.
    pub open spec fn seeds(self) -> Seq<(Handle, [u8; 4])> {
        let a = crate::painter::base_texel(PaintMap::Albedo);
        let m = crate::painter::base_texel(PaintMap::Metallic);
        let n = crate::painter::base_texel(PaintMap::Normal);
        seq![(self.albedo_tex, a), (self.mr_tex, m), (self.nrm_tex, n)] + paired(
            self.extra_albedo@,
            a,
        ) + paired(self.extra_mr@, m) + paired(self.extra_nrm@, n)
    }

    /// The textures of the maps with the texels that they have to be filled with.
    pub fn map_seeds(&self) -> (out: Vec<(Handle, [u8; 4])>)
        ensures
            out@ == self.seeds(),
    {
        let a: [u8; 4] = seed_texel(PaintMap::Albedo);
        let m: [u8; 4] = seed_texel(PaintMap::Metallic);
        let n: [u8; 4] = seed_texel(PaintMap::Normal);
        let mut out: Vec<(Handle, [u8; 4])> = Vec::new();
        out.push((self.albedo_tex, a));
        out.push((self.mr_tex, m));
        out.push((self.nrm_tex, n));
        assert(out@ =~= seq![(self.albedo_tex, a), (self.mr_tex, m), (self.nrm_tex, n)]);
        push_paired(&mut out, &self.extra_albedo, a);
        push_paired(&mut out, &self.extra_mr, m);
        push_paired(&mut out, &self.extra_nrm, n);
        out
    }
}

/// Every texture of a list of tiles with the same texel.
pub open spec fn paired(tiles: Seq<Tile>, texel: [u8; 4]) -> Seq<(Handle, [u8; 4])> {
    tiles.map_values(|t: Tile| (t.1, texel))
}

fn push_paired(out: &mut Vec<(Handle, [u8; 4])>, tiles: &Vec<Tile>, texel: [u8; 4])
    ensures
        final(out)@ == old(out)@ + paired(tiles@, texel),
{
    let mut i: usize = 0;
    while i < tiles.len()
        invariant
            i <= tiles@.len(),
            out@ =~= old(out)@ + paired(tiles@, texel).take(i as int),
        decreases tiles@.len() - i,
    {
        out.push((tiles[i].1, texel));
        i += 1;
    }
    assert(paired(tiles@, texel).take(i as int) =~= paired(tiles@, texel));
}

/// A material shows each map by the textures that are kept for it: one texture where there is one
/// tile at most, else a texture for every tile, the first tile first.
pub proof fn law_materials_show_their_maps(p: Painter, m: MaterialMaps, i: int)
    requires
        p.wf(),
        p.shows_maps(m),
    ensures
        match m {
            MaterialMaps::Single { albedo, normal, metallic_roughness } => {
                &&& p.udim_ids@.len() <= 1
                &&& albedo == p.albedo_tex && normal == p.nrm_tex && metallic_roughness == p.mr_tex
            },
            MaterialMaps::Udim { albedo_tiles, normal_tiles, mr_tiles } => {
                let n = p.udim_ids@.len();
                &&& n > 1
                &&& albedo_tiles@.len() == n && normal_tiles@.len() == n && mr_tiles@.len() == n
                &&& albedo_tiles@[0].1 == p.albedo_tex && normal_tiles@[0].1 == p.nrm_tex
                &&& mr_tiles@[0].1 == p.mr_tex
                &&& 0 < i < n ==> albedo_tiles@[i].1 == p.extra_albedo@[i - 1].1
                    && normal_tiles@[i].1 == p.extra_nrm@[i - 1].1 && mr_tiles@[i].1
                    == p.extra_mr@[i - 1].1
                &&& 0 <= i < n ==> albedo_tiles@[i].0 == p.udim_ids@[i] && normal_tiles@[i].0
                    == p.udim_ids@[i] && mr_tiles@[i].0 == p.udim_ids@[i]
            },
        },
{
    if 0 < i < p.udim_ids@.len() {
        assert(p.extra_albedo@[i - 1].0 == p.udim_ids@[i]);
        assert(p.extra_mr@[i - 1].0 == p.udim_ids@[i]);
        assert(p.extra_nrm@[i - 1].0 == p.udim_ids@[i]);
    }
}

/// Metallic and roughness share their textures; the other maps have their own. The first texture
/// of a map stands on the first tile, or on the tile 1001 where no tile is known.
pub proof fn law_maps_have_their_textures(p: Painter)
    ensures
        p.map_tiles(PaintMap::Metallic) == p.map_tiles(PaintMap::Roughness),
        p.map_tiles(PaintMap::Albedo)[0].1 == p.albedo_tex,
        p.map_tiles(PaintMap::Metallic)[0].1 == p.mr_tex,
        p.map_tiles(PaintMap::Normal)[0].1 == p.nrm_tex,
        p.map_tiles(PaintMap::Albedo).skip(1) == p.extra_albedo@,
        p.map_tiles(PaintMap::Metallic).skip(1) == p.extra_mr@,
        p.map_tiles(PaintMap::Normal).skip(1) == p.extra_nrm@,
        p.udim_ids@.len() == 0 ==> p.first_tile() == 1001,
        p.udim_ids@.len() > 0 ==> p.first_tile() == p.udim_ids@[0],
        forall|m: PaintMap| (#[trigger] p.map_tiles(m))[0].0 == p.first_tile(),
{
    assert(p.map_tiles(PaintMap::Albedo).skip(1) =~= p.extra_albedo@);
    assert(p.map_tiles(PaintMap::Metallic).skip(1) =~= p.extra_mr@);
    assert(p.map_tiles(PaintMap::Normal).skip(1) =~= p.extra_nrm@);
}

/// Every texture of a map is filled, with the colour of its map: light grey, no metal and a
/// roughness of 114 of 255, or a flat normal. No texture is filled twice or left out.
pub proof fn law_every_map_is_seeded(p: Painter, i: int)
    requires
        0 <= i < p.seeds().len(),
    ensures
        ({
            let a = p.extra_albedo@.len();
            let m = p.extra_mr@.len();
            let n = p.extra_nrm@.len();
            let s = p.seeds()[i];
            &&& p.seeds().len() == 3 + a + m + n
            &&& i == 0 ==> s == (p.albedo_tex, [220u8, 220, 225, 255])
            &&& i == 1 ==> s == (p.mr_tex, [255u8, 114, 0, 255])
            &&& i == 2 ==> s == (p.nrm_tex, [128u8, 128, 255, 255])
            &&& 3 <= i < 3 + a ==> s == (p.extra_albedo@[i - 3].1, [220u8, 220, 225, 255])
            &&& 3 + a <= i < 3 + a + m ==> s == (p.extra_mr@[i - 3 - a].1, [255u8, 114, 0, 255])
            &&& 3 + a + m <= i ==> s == (p.extra_nrm@[i - 3 - a - m].1, [128u8, 128, 255, 255])
        }),
{
}

/// A new tile gets three new textures, in the order of the maps, and no texture goes to two maps
/// or tiles.
pub proof fn law_new_tiles_get_three_textures(p: Painter, fresh: Seq<Handle>, i: int)
    requires
        fresh.len() == 3 * (p.tiles_wanted() - 1),
        0 < i < p.udim_ids@.len(),
    ensures
        p.dealt(fresh, 0)[i - 1] == (p.udim_ids@[i], fresh[3 * i - 3]),
        p.dealt(fresh, 1)[i - 1] == (p.udim_ids@[i], fresh[3 * i - 2]),
        p.dealt(fresh, 2)[i - 1] == (p.udim_ids@[i], fresh[3 * i - 1]),
        p.dealt(fresh, 0).len() == p.udim_ids@.len() - 1,
{
}

/// A stack begins with one transparent, active layer over the base colour of its map, and has to
/// be put together. Its textures are those at the place of its map among the new ones.
pub proof fn law_stacks_begin_with_one_layer(
    p: Painter,
    d: PaintDocument,
    map: PaintMap,
    fresh: Seq<Handle>,
    k: int,
)
    requires
        fresh.len() == 4 * p.tiles_wanted(),
        p.is_new_doc(d, map, hand(fresh, map.position(), p.tiles_wanted())),
        0 <= k < p.tiles_wanted(),
    ensures
        ({
            let l = d.layers@[0];
            let at = map.position() * p.tiles_wanted();
            &&& d.layers@.len() == 1 && d.active == 0 && d.composite_dirty
            &&& d.width == 2048 && d.height == 2048
            &&& d.paint_target == crate::paint::PaintTarget::Content
            &&& l.kind == crate::paint::LayerKind::Paint && l.needs_clear && l.visible
            &&& l.opacity == 0x3f80_0000 && l.mask is None
            &&& l.tex == Some(fresh[at])
            &&& k > 0 ==> l.extra_tex@[k - 1] == (p.udim_ids@[k], fresh[at + k])
            &&& d.base_rgba.a == 0x3f80_0000
            &&& map is Metallic ==> d.base_rgba.b == 0
            &&& map is Roughness ==> d.base_rgba.g == 0x3ee6_6666
            &&& map is Normal ==> d.base_rgba.r == 0x3f00_8081 && d.base_rgba.g == 0x3f00_8081
                && d.base_rgba.b == 0x3f80_0000
            &&& map is Albedo ==> d.base_rgba.r == 0x3f5c_dcdd && d.base_rgba.g == 0x3f5c_dcdd
                && d.base_rgba.b == 0x3f61_e1e2
        }),
{
    let n = p.tiles_wanted();
    let i = map.position();
    assert((i + 1) * n == i * n + n) by (nonlinear_arith);
    assert(0 <= i * n && i * n + n <= 4 * n) by (nonlinear_arith)
        requires
            0 <= i < 4,
            n >= 0,
    ;
    assert(hand(fresh, i, n)[k] == fresh[i * n + k]);
    assert(hand(fresh, i, n)[0] == fresh[i * n]);
}

/// The textures of a stack are those of its layers, all of them and no others.
pub proof fn law_a_stack_holds_the_textures_of_its_layers(layers: Seq<Layer>, h: Handle)
    ensures
        stack_textures(layers).contains(h) <==> exists|i: int|
            0 <= i < layers.len() && (#[trigger] layers[i]).all_textures().contains(h),
    decreases layers.len(),
{
    if layers.len() > 0 {
        let front = layers.drop_last();
        let n = layers.len() - 1;
        law_a_stack_holds_the_textures_of_its_layers(front, h);
        let a = stack_textures(front);
        let b = layers.last().all_textures();
        lemma_sum_contains(a, b, h);
        if a.contains(h) {
            let i = choose|i: int|
                0 <= i < front.len() && (#[trigger] front[i]).all_textures().contains(h);
            assert(layers[i].all_textures().contains(h));
        }
        if b.contains(h) {
            assert(layers[n].all_textures().contains(h));
        }
        if exists|i: int|
            0 <= i < layers.len() && (#[trigger] layers[i]).all_textures().contains(h) {
            let i = choose|i: int|
                0 <= i < layers.len() && (#[trigger] layers[i]).all_textures().contains(h);
            if i < n {
                assert(front[i].all_textures().contains(h));
            }
        }
    }
}

proof fn lemma_sum_contains(a: Seq<Handle>, b: Seq<Handle>, h: Handle)
    ensures
        (a + b).contains(h) <==> a.contains(h) || b.contains(h),
{
    let s = a + b;
    if a.contains(h) {
        let i = choose|i: int| 0 <= i < a.len() && a[i] == h;
        assert(s[i] == h);
    }
    if b.contains(h) {
        let i = choose|i: int| 0 <= i < b.len() && b[i] == h;
        assert(s[a.len() + i] == h);
    }
    if s.contains(h) {
        let i = choose|i: int| 0 <= i < s.len() && s[i] == h;
        if i < a.len() {
            assert(a[i] == h);
        } else {
            assert(b[i - a.len()] == h);
        }
    }
}

} // verus!
