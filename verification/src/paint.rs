//! Layer stacks: what is painted on one material map.

use vstd::prelude::*;

use crate::bits::{Rgba, ONE, ZERO};
use crate::scene::Handle;

verus! {

/// Side of a paint texture in texels.
pub const TEX_SIZE: u32 = 2048;

/// The tile that is used when no tile is known.
pub const FIRST_TILE: u32 = 1001;

/// Which material map the brush and the layer stack work on.
#[derive(Clone, Copy, Debug, PartialEq, Eq, Structural)]
pub enum PaintMap {
    Albedo,
    Metallic,
    Roughness,
    Normal,
}

impl Default for PaintMap {
    fn default() -> (m: Self)
        ensures
            m == PaintMap::Albedo,
    {
        PaintMap::Albedo
    }
}

impl PaintMap {
    /// The maps in the order of their indices.
    pub const ALL: [PaintMap; 4] = [
        PaintMap::Albedo,
        PaintMap::Metallic,
        PaintMap::Roughness,
        PaintMap::Normal,
    ];

    /// Name on the map switch.
    pub open spec fn text(self) -> Seq<char> {
        match self {
            PaintMap::Albedo => "Albedo"@,
            PaintMap::Metallic => "Metallic"@,
            PaintMap::Roughness => "Roughness"@,
            PaintMap::Normal => "Normal"@,
        }
    }

    /// Position among the maps.
    pub open spec fn position(self) -> int {
        match self {
            PaintMap::Albedo => 0,
            PaintMap::Metallic => 1,
            PaintMap::Roughness => 2,
            PaintMap::Normal => 3,
        }
    }

    /// Name on the map switch.
    pub fn label(self) -> (s: &'static str)
        ensures
            s@ == self.text(),
    {
        match self {
            PaintMap::Albedo => "Albedo",
            PaintMap::Metallic => "Metallic",
            PaintMap::Roughness => "Roughness",
            PaintMap::Normal => "Normal",
        }
    }

    /// Position among the maps.
    pub fn index(self) -> (i: usize)
        ensures
            i == self.position(),
            i < 4,
    {
        match self {
            PaintMap::Albedo => 0,
            PaintMap::Metallic => 1,
            PaintMap::Roughness => 2,
            PaintMap::Normal => 3,
        }
    }

    /// Which channels of the material map a stack writes. Metallic and roughness share one map:
    /// roughness is green, metallic is blue.
    pub open spec fn channels(self) -> Rgba {
        match self {
            PaintMap::Albedo => Rgba { r: ONE, g: ONE, b: ONE, a: ONE },
            PaintMap::Normal => Rgba { r: ONE, g: ONE, b: ONE, a: ONE },
            PaintMap::Roughness => Rgba { r: ZERO, g: ONE, b: ZERO, a: ZERO },
            PaintMap::Metallic => Rgba { r: ZERO, g: ZERO, b: ONE, a: ZERO },
        }
    }

    /// Which channels of the material map this stack writes.
    pub fn channel_mask(self) -> (mask: Rgba)
        ensures
            mask == self.channels(),
    {
        match self {
            PaintMap::Albedo => Rgba::new(ONE, ONE, ONE, ONE),
            PaintMap::Normal => Rgba::new(ONE, ONE, ONE, ONE),
            PaintMap::Roughness => Rgba::new(ZERO, ONE, ZERO, ZERO),
            PaintMap::Metallic => Rgba::new(ZERO, ZERO, ONE, ZERO),
        }
    }
}

/// The list of maps and the index of a map are inverse to each other.
pub proof fn law_index_finds_map(m: PaintMap, i: int)
    ensures
        PaintMap::ALL@[m.position()] == m,
        0 <= i < PaintMap::ALL@.len() ==> PaintMap::ALL@[i].position() == i,
{
}

/// A flat normal in tangent space: 128, 128, 255.
pub fn flat_normal() -> (c: Rgba)
    ensures
        c == flat(),
{
    Rgba::new(0x3f00_8081, 0x3f00_8081, ONE, ONE)
}

/// A flat normal in tangent space: 128, 128, 255.
pub open spec fn flat() -> Rgba {
    Rgba { r: 0x3f00_8081, g: 0x3f00_8081, b: ONE, a: ONE }
}

/// What a layer holds.
#[derive(Clone, Copy, Debug, PartialEq, Eq, Structural)]
pub enum LayerKind {
    Paint,
    Fill,
}

impl Default for LayerKind {
    fn default() -> (k: Self)
        ensures
            k == LayerKind::Paint,
    {
        LayerKind::Paint
    }
}

/// What a stroke on a layer changes.
#[derive(Clone, Copy, Debug, PartialEq, Eq, Structural)]
pub enum PaintTarget {
    Content,
    Mask,
}

impl Default for PaintTarget {
    fn default() -> (t: Self)
        ensures
            t == PaintTarget::Content,
    {
        PaintTarget::Content
    }
}

/// One tile of a texture: its number and the texture that holds it.
pub type Tile = (u32, Handle);

/// One layer of a stack. The textures hold the pixels.
pub struct Layer {
    pub name: String,
    pub visible: bool,
    pub opacity: u32,
    pub kind: LayerKind,
    /// Colour of a fill layer; paint layers ignore it.
    pub fill: Rgba,
    pub tex: Option<Handle>,
    /// The tiles after the first; `tex` is the first.
    pub extra_tex: Vec<Tile>,
    pub mask: Option<Handle>,
    pub extra_mask: Vec<Tile>,
    /// The paint texture has to be made transparent before it is used.
    pub needs_clear: bool,
    /// The colour with which the mask has to be filled before it is used.
    pub mask_init: Option<[u8; 4]>,
}

/// The tiles of a texture: the first one has the first number of the list, the others bring
/// theirs along.
pub open spec fn tiles_of(ids: Seq<u32>, first: Option<Handle>, extra: Seq<Tile>) -> Seq<Tile> {
    match first {
        None => extra,
        Some(h) => if ids.len() == 0 {
            seq![(FIRST_TILE, h)]
        } else {
            seq![(ids[0], h)] + extra
        },
    }
}

/// How many tiles a list of numbers stands for: without numbers there is one.
pub open spec fn tile_count(ids: Seq<u32>) -> nat {
    if ids.len() == 0 {
        1
    } else {
        ids.len()
    }
}

/// The tiles after the first have the numbers of the list, in its order.
pub open spec fn is_numbered(extra: Seq<Tile>, ids: Seq<u32>) -> bool {
    &&& extra.len() == tile_count(ids) - 1
    &&& forall|i: int| 0 <= i < extra.len() ==> (#[trigger] extra[i]).0 == ids[i + 1]
}

/// A handle as a list of at most one.
pub open spec fn as_list(h: Option<Handle>) -> Seq<Handle> {
    match h {
        Some(h) => seq![h],
        None => Seq::empty(),
    }
}

/// The textures of a list of tiles.
pub open spec fn textures(tiles: Seq<Tile>) -> Seq<Handle> {
    tiles.map_values(|t: Tile| t.1)
}

fn push_tiles(out: &mut Vec<Tile>, extra: &Vec<Tile>)
    ensures
        final(out)@ == old(out)@ + extra@,
{
    let mut i: usize = 0;
    while i < extra.len()
        invariant
            i <= extra.len(),
            out@ =~= old(out)@ + extra@.take(i as int),
        decreases extra.len() - i,
    {
        out.push(extra[i]);
        i += 1;
    }
    assert(extra@.take(i as int) =~= extra@);
}

/// Adds the textures of a list of tiles to a list.
pub fn push_textures(out: &mut Vec<Handle>, tiles: &Vec<Tile>)
    ensures
        final(out)@ == old(out)@ + textures(tiles@),
{
    let mut i: usize = 0;
    while i < tiles.len()
        invariant
            i <= tiles.len(),
            out@ =~= old(out)@ + textures(tiles@).take(i as int),
        decreases tiles.len() - i,
    {
        out.push(tiles[i].1);
        i += 1;
    }
    assert(textures(tiles@).take(i as int) =~= textures(tiles@));
}

fn tiles_for(ids: &Vec<u32>, first: Option<Handle>, extra: &Vec<Tile>) -> (out: Vec<Tile>)
    ensures
        out@ == tiles_of(ids@, first, extra@),
{
    let mut out: Vec<Tile> = Vec::new();
    match first {
        None => {
            push_tiles(&mut out, extra);
            assert(out@ =~= extra@);
        },
        Some(h) => {
            if ids.len() == 0 {
                out.push((FIRST_TILE, h));
            } else {
                out.push((ids[0], h));
                push_tiles(&mut out, extra);
            }
        },
    }
    out
}

impl Layer {
    /// A new paint layer. Its texture has to be cleared first.
    pub open spec fn is_new_paint(self, name: Seq<char>, tex: Handle) -> bool {
        &&& self.name@ == name
        &&& self.visible
        &&& self.opacity == ONE
        &&& self.kind == LayerKind::Paint
        &&& self.fill == (Rgba { r: ONE, g: ONE, b: ONE, a: ONE })
        &&& self.tex == Some(tex)
        &&& self.extra_tex@ == Seq::<Tile>::empty()
        &&& self.mask is None
        &&& self.extra_mask@ == Seq::<Tile>::empty()
        &&& self.needs_clear
        &&& self.mask_init is None
    }

    /// A new fill layer. It has no texture.
    pub open spec fn is_new_fill(self, name: Seq<char>, color: Rgba) -> bool {
        &&& self.name@ == name
        &&& self.visible
        &&& self.opacity == ONE
        &&& self.kind == LayerKind::Fill
        &&& self.fill == color
        &&& self.tex is None
        &&& self.extra_tex@ == Seq::<Tile>::empty()
        &&& self.mask is None
        &&& self.extra_mask@ == Seq::<Tile>::empty()
        &&& !self.needs_clear
        &&& self.mask_init is None
    }

    /// A painted layer has a texture for every tile, and so has a mask.
    pub open spec fn is_tiled(self, ids: Seq<u32>) -> bool {
        &&& self.kind == LayerKind::Paint ==> self.tex is Some && is_numbered(
            self.extra_tex@,
            ids,
        )
        &&& self.mask is Some ==> is_numbered(self.extra_mask@, ids)
    }

    /// All textures of the layer.
    pub open spec fn all_textures(self) -> Seq<Handle> {
        as_list(self.tex) + textures(self.extra_tex@) + as_list(self.mask) + textures(
            self.extra_mask@,
        )
    }

    /// A new paint layer over a texture.
    pub fn paint(name: String, tex: Handle) -> (l: Layer)
        ensures
            l.is_new_paint(name@, tex),
    {
        Layer {
            name,
            visible: true,
            opacity: ONE,
            kind: LayerKind::Paint,
            fill: Rgba::grey(ONE),
            tex: Some(tex),
            extra_tex: Vec::new(),
            mask: None,
            extra_mask: Vec::new(),
            needs_clear: true,
            mask_init: None,
        }
    }

    /// A new fill layer of one colour.
    pub fn fill(name: String, color: Rgba) -> (l: Layer)
        ensures
            l.is_new_fill(name@, color),
    {
        Layer {
            name,
            visible: true,
            opacity: ONE,
            kind: LayerKind::Fill,
            fill: color,
            tex: None,
            extra_tex: Vec::new(),
            mask: None,
            extra_mask: Vec::new(),
            needs_clear: false,
            mask_init: None,
        }
    }

    /// All textures of the layer: its content first, then its mask.
    pub fn gpu_handles(&self) -> (out: Vec<Handle>)
        ensures
            out@ == self.all_textures(),
    {
        let mut out: Vec<Handle> = Vec::new();
        match self.tex {
            Some(h) => out.push(h),
            None => {},
        }
        assert(out@ =~= as_list(self.tex));
        push_textures(&mut out, &self.extra_tex);
        let ghost content = out@;
        match self.mask {
            Some(h) => out.push(h),
            None => {},
        }
        assert(out@ =~= content + as_list(self.mask));
        push_textures(&mut out, &self.extra_mask);
        out
    }

    /// The tiles that hold the content.
    pub fn content_tiles(&self, ids: &Vec<u32>) -> (out: Vec<Tile>)
        ensures
            out@ == tiles_of(ids@, self.tex, self.extra_tex@),
    {
        tiles_for(ids, self.tex, &self.extra_tex)
    }

    /// The tiles that hold the mask.
    pub fn mask_tiles(&self, ids: &Vec<u32>) -> (out: Vec<Tile>)
        ensures
            out@ == tiles_of(ids@, self.mask, self.extra_mask@),
    {
        tiles_for(ids, self.mask, &self.extra_mask)
    }
}

/// What a stroke does: paint lays colour down, the eraser takes it away.
#[derive(Clone, Copy, Debug, PartialEq, Eq, Structural)]
pub enum PaintTool {
    Paint,
    Eraser,
}

impl Default for PaintTool {
    fn default() -> (t: Self)
        ensures
            t == PaintTool::Paint,
    {
        PaintTool::Paint
    }
}

impl PaintTool {
    /// The tools in the order of the tool switch.
    pub const ALL: [PaintTool; 2] = [PaintTool::Paint, PaintTool::Eraser];

    /// Name on the tool switch.
    pub open spec fn text(self) -> Seq<char> {
        match self {
            PaintTool::Paint => "Paint"@,
            PaintTool::Eraser => "Eraser"@,
        }
    }

    /// Name on the tool switch.
    pub fn label(self) -> (s: &'static str)
        ensures
            s@ == self.text(),
    {
        match self {
            PaintTool::Paint => "Paint",
            PaintTool::Eraser => "Eraser",
        }
    }
}

/// The brush. All numbers are bit patterns.
#[derive(Clone, Copy, Debug, PartialEq, Eq, Structural)]
pub struct Brush {
    pub color: Rgba,
    /// Radius in the world.
    pub radius: u32,
    /// From soft, zero, to hard, one.
    pub hardness: u32,
    pub opacity: u32,
    pub spacing: u32,
}

/// A red brush: colour 0.9, 0.15, 0.12, radius 0.08, hardness 0.55, opacity 0.85 and spacing 0.35.
pub open spec fn first_brush() -> Brush {
    Brush {
        color: Rgba { r: 0x3f66_6666, g: 0x3e19_999a, b: 0x3df5_c28f, a: ONE },
        radius: 0x3da3_d70a,
        hardness: 0x3f0c_cccd,
        opacity: 0x3f59_999a,
        spacing: 0x3eb3_3333,
    }
}

impl Default for Brush {
    /// The brush at the start.
    fn default() -> (b: Self)
        ensures
            b == first_brush(),
    {
        Brush {
            color: Rgba::new(0x3f66_6666, 0x3e19_999a, 0x3df5_c28f, ONE),
            radius: 0x3da3_d70a,
            hardness: 0x3f0c_cccd,
            opacity: 0x3f59_999a,
            spacing: 0x3eb3_3333,
        }
    }
}

/// The layer stack of one material map.
pub struct PaintDocument {
    pub width: u32,
    pub height: u32,
    /// What shows where all layers are transparent.
    pub base_rgba: Rgba,
    pub layers: Vec<Layer>,
    pub active: usize,
    pub paint_target: PaintTarget,
    pub composite_dirty: bool,
}

/// `a` limited to the range from zero to `top`.
pub open spec fn limited(a: int, top: int) -> int {
    if a < 0 {
        0
    } else if a > top {
        top
    } else {
        a
    }
}

/// The list with two items exchanged.
pub open spec fn exchanged<T>(s: Seq<T>, i: int, j: int) -> Seq<T> {
    s.update(i, s[j]).update(j, s[i])
}

fn exchange<T>(v: &mut Vec<T>, i: usize, j: usize)
    requires
        i < old(v).len(),
        j < old(v).len(),
    ensures
        final(v)@ == exchanged(old(v)@, i as int, j as int),
{
    if i == j {
        assert(v@ =~= exchanged(old(v)@, i as int, j as int));
        return ;
    }
    let (low, high) = if i < j {
        (i, j)
    } else {
        (j, i)
    };
    let b = v.remove(high);
    let a = v.remove(low);
    v.insert(low, b);
    v.insert(high, a);
    assert(v@ =~= exchanged(old(v)@, i as int, j as int));
}

impl PaintDocument {
    /// The invariant: the active layer exists as soon as there are layers, and only a layer with
    /// a mask can have its mask painted.
    pub open spec fn wf(self) -> bool {
        &&& self.layers@.len() == 0 || self.active < self.layers@.len()
        &&& self.paint_target == PaintTarget::Mask ==> self.active < self.layers@.len()
            && self.layers@[self.active as int].mask is Some
    }

    /// Every layer has its textures for every tile.
    pub open spec fn is_tiled(self, ids: Seq<u32>) -> bool {
        forall|i: int| 0 <= i < self.layers@.len() ==> (#[trigger] self.layers@[i]).is_tiled(ids)
    }

    /// An empty stack.
    pub fn new(width: u32, height: u32, base_rgba: Rgba) -> (d: PaintDocument)
        ensures
            d.wf(),
            d.width == width,
            d.height == height,
            d.base_rgba == base_rgba,
            d.layers@ == Seq::<Layer>::empty(),
            d.active == 0,
            d.paint_target == PaintTarget::Content,
            d.composite_dirty,
    {
        PaintDocument {
            width,
            height,
            base_rgba,
            layers: Vec::new(),
            active: 0,
            paint_target: PaintTarget::Content,
            composite_dirty: true,
        }
    }

    /// Notes that the stack has to be put together again.
    pub fn mark_dirty(&mut self)
        ensures
            *final(self) == (PaintDocument { composite_dirty: true, ..*old(self) }),
    {
        self.composite_dirty = true;
    }

    /// Whether the stack has to be put together again; after that it counts as done.
    pub fn take_composite_dirty(&mut self) -> (d: bool)
        ensures
            d == old(self).composite_dirty,
            *final(self) == (PaintDocument { composite_dirty: false, ..*old(self) }),
    {
        let d = self.composite_dirty;
        self.composite_dirty = false;
        d
    }

    /// Ends a stroke. Strokes go straight to the textures, so nothing is left to do.
    pub fn end_stroke(&mut self)
        ensures
            *final(self) == *old(self),
    {
    }

    /// The active layer.
    pub open spec fn current(self) -> Option<Layer> {
        if self.active < self.layers@.len() {
            Some(self.layers@[self.active as int])
        } else {
            None
        }
    }

    /// The active layer.
    pub fn active_layer(&self) -> (l: Option<&Layer>)
        ensures
            match l {
                Some(l) => self.current() == Some(*l),
                None => self.current() is None,
            },
    {
        if self.active < self.layers.len() {
            Some(&self.layers[self.active])
        } else {
            None
        }
    }

    /// What can be painted of what was to be painted: a mask only where the active layer has one.
    pub open spec fn allowed_target(self) -> PaintTarget {
        if self.active < self.layers@.len() && self.layers@[self.active as int].mask is Some {
            self.paint_target
        } else {
            PaintTarget::Content
        }
    }

    /// Goes back to painting the content when the active layer has no mask.
    pub fn clamp_paint_target(&mut self)
        ensures
            *final(self) == (PaintDocument {
                paint_target: old(self).allowed_target(),
                ..*old(self)
            }),
    {
        let ok = match self.active_layer() {
            Some(l) => l.mask.is_some() || self.paint_target == PaintTarget::Content,
            None => false,
        };
        if !ok {
            self.paint_target = PaintTarget::Content;
        }
    }

    /// Where the active layer goes when it is moved by `delta` places.
    pub open spec fn moved_to(self, delta: int) -> int {
        limited(self.active + delta, self.layers@.len() - 1)
    }

    /// Moves the active layer by exchanging it with the layer `delta` places away, or with the
    /// last one in that direction. It stays the active layer.
    pub fn move_active(&mut self, delta: isize)
        requires
            old(self).layers@.len() <= 1 || old(self).active < old(self).layers@.len(),
        ensures
            old(self).layers@.len() <= 1 || old(self).moved_to(delta as int) == old(self).active
                ==> *final(self) == *old(self),
            old(self).layers@.len() > 1 && old(self).moved_to(delta as int) != old(self).active
                ==> {
                &&& final(self).layers@ == exchanged(
                    old(self).layers@,
                    old(self).active as int,
                    old(self).moved_to(delta as int),
                )
                &&& final(self).active == old(self).moved_to(delta as int)
                &&& final(self).composite_dirty
                &&& final(self).paint_target == old(self).paint_target
                &&& final(self).width == old(self).width
                &&& final(self).height == old(self).height
                &&& final(self).base_rgba == old(self).base_rgba
            },
            old(self).wf() ==> final(self).wf(),
            forall|ids: Seq<u32>| old(self).is_tiled(ids) ==> #[trigger] final(self).is_tiled(ids),
    {
        let n: usize = self.layers.len();
        if n <= 1 {
            return ;
        }
        let aim: i128 = self.active as i128 + delta as i128;
        let to: usize = if aim < 0 {
            0
        } else if aim > n as i128 - 1 {
            n - 1
        } else {
            aim as usize
        };
        if to == self.active {
            return ;
        }
        let from: usize = self.active;
        exchange(&mut self.layers, from, to);
        self.active = to;
        self.mark_dirty();
    }
}

/// Moving keeps every layer, and the layer that was active is active afterwards.
pub proof fn law_move_keeps_layers(layers: Seq<Layer>, from: int, to: int)
    requires
        0 <= from < layers.len(),
        0 <= to < layers.len(),
    ensures
        exchanged(layers, from, to)[to] == layers[from],
        exchanged(layers, from, to)[from] == layers[to],
        exchanged(layers, from, to).len() == layers.len(),
        exchanged(exchanged(layers, from, to), to, from) == layers,
        exchanged(layers, from, to).to_multiset() == layers.to_multiset(),
{
    assert(exchanged(exchanged(layers, from, to), to, from) =~= layers);
    broadcast use vstd::seq_lib::group_to_multiset_ensures;

    let once = layers.update(from, layers[to]);
    vstd::seq_lib::to_multiset_update(layers, from, layers[to]);
    vstd::seq_lib::to_multiset_update(once, to, layers[from]);
    assert(exchanged(layers, from, to).to_multiset() =~= layers.to_multiset());
}

/// A new layer is visible and opaque, without a mask. A painted one holds the texture that it was
/// given and waits to be made transparent; a filled one holds its colour and no texture.
pub proof fn law_layers_begin_visible(l: Layer, name: Seq<char>, tex: Handle, color: Rgba)
    requires
        l.is_new_paint(name, tex) || l.is_new_fill(name, color),
    ensures
        l.name@ == name && l.visible && l.opacity == 0x3f80_0000,
        l.mask is None && l.extra_mask@.len() == 0 && l.extra_tex@.len() == 0,
        l.mask_init is None,
        l.is_new_paint(name, tex) ==> l.all_textures() == seq![tex] && l.needs_clear && l.kind
            == LayerKind::Paint && l.fill == (Rgba {
            r: 0x3f80_0000,
            g: 0x3f80_0000,
            b: 0x3f80_0000,
            a: 0x3f80_0000,
        }),
        l.is_new_fill(name, color) ==> l.all_textures().len() == 0 && !l.needs_clear && l.kind
            == LayerKind::Fill && l.fill == color,
{
    if l.is_new_paint(name, tex) {
        assert(l.all_textures() =~= seq![tex]);
    }
}

/// The tiles of a texture have the numbers of the list, in its order, and the textures in theirs.
pub proof fn law_tiles_go_by_number(ids: Seq<u32>, first: Handle, extra: Seq<Tile>, i: int)
    requires
        is_numbered(extra, ids),
        0 <= i < ids.len(),
    ensures
        ({
            let t = tiles_of(ids, Some(first), extra);
            &&& t.len() == ids.len()
            &&& t[i].0 == ids[i]
            &&& t[0].1 == first
            &&& i > 0 ==> t[i].1 == extra[i - 1].1
        }),
        tiles_of(Seq::empty(), Some(first), extra) == seq![(1001u32, first)],
        tiles_of(ids, None, extra) == extra,
{
    if i > 0 {
        assert(extra[i - 1].0 == ids[i]);
    }
}

/// The textures of a layer are those of its content and then those of its mask.
pub proof fn law_a_layer_holds_content_and_mask(l: Layer, i: int)
    requires
        l.tex is Some,
        l.mask is Some,
        0 <= i < l.extra_tex@.len() && i < l.extra_mask@.len(),
    ensures
        ({
            let t = l.all_textures();
            let n = l.extra_tex@.len() as int;
            &&& t.len() == n + l.extra_mask@.len() + 2
            &&& t[0] == l.tex->0
            &&& t[i + 1] == l.extra_tex@[i].1
            &&& t[n + 1] == l.mask->0
            &&& t[n + 2 + i] == l.extra_mask@[i].1
        }),
{
}

/// Metallic and roughness write one channel each of the texture that they share, and not the same
/// one; the other maps write every channel.
pub proof fn law_shared_maps_do_not_meet(m: PaintMap)
    ensures
        ({
            let c = m.channels();
            let whole = m is Albedo || m is Normal;
            &&& c.g == (if whole || m is Roughness {
                0x3f80_0000u32
            } else {
                0u32
            })
            &&& c.b == (if whole || m is Metallic {
                0x3f80_0000u32
            } else {
                0u32
            })
            &&& c.r == (if whole {
                0x3f80_0000u32
            } else {
                0u32
            })
            &&& c.a == c.r
        }),
{
}

/// A layer moves by as many places as it is asked to, up to the end of the stack.
pub proof fn law_layers_move_as_far_as_asked(d: PaintDocument, delta: int)
    requires
        d.active < d.layers@.len(),
    ensures
        0 <= d.moved_to(delta) < d.layers@.len(),
        0 <= d.active + delta < d.layers@.len() ==> d.moved_to(delta) == d.active + delta,
        d.active + delta < 0 ==> d.moved_to(delta) == 0,
        d.active + delta >= d.layers@.len() ==> d.moved_to(delta) == d.layers@.len() - 1,
{
}

/// A mask is painted only where there is one; content is painted wherever it was to be painted. In
/// a stack in order nothing has to be changed.
pub proof fn law_only_masks_that_exist_are_painted(d: PaintDocument)
    ensures
        d.allowed_target() == PaintTarget::Mask ==> d.paint_target == PaintTarget::Mask && d.active
            < d.layers@.len() && d.layers@[d.active as int].mask is Some,
        d.paint_target == PaintTarget::Content ==> d.allowed_target() == PaintTarget::Content,
        d.wf() ==> d.allowed_target() == d.paint_target,
{
}

} // verus!
