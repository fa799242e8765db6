//! Adding, removing and clearing layers and masks. Textures come from the caller; functions that
//! need some take them, and hand back those that are no longer used.

use vstd::prelude::*;

use crate::paint::{Layer, LayerKind, PaintDocument, PaintTarget, Tile};
use crate::scene::Handle;

verus! {

/// With what a new or a cleared mask is filled: black on a fill layer, so that painting reveals
/// it; white on a paint layer, so that its strokes stay.
pub open spec fn mask_fill(kind: LayerKind) -> [u8; 4] {
    match kind {
        LayerKind::Fill => [0u8, 0u8, 0u8, 255u8],
        LayerKind::Paint => [255u8, 255u8, 255u8, 255u8],
    }
}

fn mask_color(kind: LayerKind) -> (c: [u8; 4])
    ensures
        c == mask_fill(kind),
{
    match kind {
        LayerKind::Fill => [0, 0, 0, 255],
        LayerKind::Paint => [255, 255, 255, 255],
    }
}

/// The number of fill layers.
pub open spec fn fill_count(layers: Seq<Layer>) -> nat
    decreases layers.len(),
{
    if layers.len() == 0 {
        0
    } else {
        fill_count(layers.drop_last()) + if layers.last().kind == LayerKind::Fill {
            1nat
        } else {
            0
        }
    }
}

/// The textures of an optional mask.
pub open spec fn mask_textures(l: Layer) -> Seq<Handle> {
    crate::paint::as_list(l.mask) + crate::paint::textures(l.extra_mask@)
}

/// A layer with another mask.
pub open spec fn masked(
    old_layer: Layer,
    new_layer: Layer,
    tex: Handle,
    extra: Seq<Tile>,
) -> bool {
    &&& new_layer.mask == Some(tex)
    &&& new_layer.extra_mask@ == extra
    &&& new_layer.mask_init == Some(mask_fill(old_layer.kind))
    &&& new_layer == (Layer {
        mask: new_layer.mask,
        extra_mask: new_layer.extra_mask,
        mask_init: new_layer.mask_init,
        ..old_layer
    })
}

/// A layer without a mask.
pub open spec fn unmasked(old_layer: Layer, new_layer: Layer) -> bool {
    &&& new_layer.mask is None
    &&& new_layer.extra_mask@ == Seq::<Tile>::empty()
    &&& new_layer.mask_init is None
    &&& new_layer == (Layer {
        mask: None,
        extra_mask: new_layer.extra_mask,
        mask_init: None,
        ..old_layer
    })
}

impl PaintDocument {
    /// The settings of the whole stack are the same.
    pub open spec fn same_frame(self, other: PaintDocument) -> bool {
        &&& self.width == other.width
        &&& self.height == other.height
        &&& self.base_rgba == other.base_rgba
    }

    /// All layers but one are the same.
    pub open spec fn differs_at(self, other: PaintDocument, i: int) -> bool {
        &&& self.layers@.len() == other.layers@.len()
        &&& forall|k: int|
            0 <= k < self.layers@.len() && k != i ==> #[trigger] self.layers@[k] == other.layers@[k]
    }

    /// The number of fill layers.
    pub fn count_fills(&self) -> (n: usize)
        ensures
            n == fill_count(self.layers@),
            n <= self.layers@.len(),
    {
        let mut n: usize = 0;
        let mut i: usize = 0;
        while i < self.layers.len()
            invariant
                i <= self.layers@.len(),
                n == fill_count(self.layers@.take(i as int)),
                n <= i,
            decreases self.layers@.len() - i,
        {
            assert(self.layers@.take(i + 1).drop_last() =~= self.layers@.take(i as int));
            if self.layers[i].kind == LayerKind::Fill {
                n += 1;
            }
            i += 1;
        }
        assert(self.layers@.take(i as int) =~= self.layers@);
        n
    }

    /// Puts a layer on top and makes it the active one; strokes go to its content.
    pub fn push_layer(&mut self, layer: Layer)
        ensures
            final(self).layers@ == old(self).layers@.push(layer),
            final(self).active == old(self).layers@.len(),
            final(self).paint_target == PaintTarget::Content,
            final(self).composite_dirty,
            final(self).same_frame(*old(self)),
            final(self).wf(),
            forall|ids: Seq<u32>|
                old(self).is_tiled(ids) && layer.is_tiled(ids) ==> #[trigger] final(self).is_tiled(
                    ids,
                ),
    {
        let n: usize = self.layers.len();
        self.layers.push(layer);
        self.active = n;
        self.paint_target = PaintTarget::Content;
        self.mark_dirty();
    }

    /// Selects the mask of a layer for painting, giving the layer the new mask if it has none.
    /// Textures that are not needed come back.
    pub fn add_mask_to(&mut self, i: usize, tex: Handle, extra: Vec<Tile>) -> (unused: Vec<Handle>)
        ensures
            final(self).same_frame(*old(self)),
            i >= old(self).layers@.len() ==> *final(self) == *old(self) && unused@ == seq![tex]
                + crate::paint::textures(extra@),
            i < old(self).layers@.len() && old(self).layers@[i as int].mask is Some ==> {
                &&& *final(self) == (PaintDocument {
                    active: i,
                    paint_target: PaintTarget::Mask,
                    ..*old(self)
                })
                &&& unused@ == seq![tex] + crate::paint::textures(extra@)
                &&& final(self).wf()
            },
            i < old(self).layers@.len() && old(self).layers@[i as int].mask is None ==> {
                &&& final(self).differs_at(*old(self), i as int)
                &&& masked(
                    old(self).layers@[i as int],
                    final(self).layers@[i as int],
                    tex,
                    extra@,
                )
                &&& final(self).active == i
                &&& final(self).paint_target == PaintTarget::Mask
                &&& final(self).composite_dirty
                &&& unused@ == Seq::<Handle>::empty()
                &&& final(self).wf()
                &&& final(self).layers@[i as int].mask_init == match old(
                    self,
                ).layers@[i as int].kind {
                    LayerKind::Paint => Some([255u8, 255, 255, 255]),
                    LayerKind::Fill => Some([0u8, 0, 0, 255]),
                }
            },
            forall|ids: Seq<u32>|
                old(self).is_tiled(ids) && crate::paint::is_numbered(extra@, ids)
                    ==> #[trigger] final(self).is_tiled(ids),
    {
        let mut unused: Vec<Handle> = Vec::new();
        if i >= self.layers.len() || self.layers[i].mask.is_some() {
            unused.push(tex);
            crate::paint::push_textures(&mut unused, &extra);
            assert(unused@ =~= seq![tex] + crate::paint::textures(extra@));
            if i < self.layers.len() {
                self.active = i;
                self.paint_target = PaintTarget::Mask;
            }
            return unused;
        }
        let fill: [u8; 4] = mask_color(self.layers[i].kind);
        self.layers[i].mask = Some(tex);
        self.layers[i].extra_mask = extra;
        self.layers[i].mask_init = Some(fill);
        self.active = i;
        self.paint_target = PaintTarget::Mask;
        self.mark_dirty();
        unused
    }

    /// Takes the mask off the active layer. Its textures come back.
    pub fn remove_mask_from_active(&mut self) -> (freed: Vec<Handle>)
        ensures
            old(self).active >= old(self).layers@.len() ==> *final(self) == *old(self)
                && freed@.len() == 0,
            old(self).active < old(self).layers@.len() ==> {
                &&& final(self).differs_at(*old(self), old(self).active as int)
                &&& unmasked(
                    old(self).layers@[old(self).active as int],
                    final(self).layers@[old(self).active as int],
                )
                &&& final(self).active == old(self).active
                &&& final(self).paint_target == PaintTarget::Content
                &&& final(self).composite_dirty
                &&& final(self).same_frame(*old(self))
                &&& freed@ == mask_textures(old(self).layers@[old(self).active as int])
            },
            old(self).wf() ==> final(self).wf(),
            forall|ids: Seq<u32>| old(self).is_tiled(ids) ==> #[trigger] final(self).is_tiled(ids),
    {
        let mut freed: Vec<Handle> = Vec::new();
        let at: usize = self.active;
        if at >= self.layers.len() {
            return freed;
        }
        match self.layers[at].mask {
            Some(h) => freed.push(h),
            None => {},
        }
        assert(freed@ =~= crate::paint::as_list(self.layers@[at as int].mask));
        crate::paint::push_textures(&mut freed, &self.layers[at].extra_mask);
        self.layers[at].mask = None;
        self.layers[at].extra_mask = Vec::new();
        self.layers[at].mask_init = None;
        self.paint_target = PaintTarget::Content;
        self.mark_dirty();
        freed
    }

    /// The mask of the active layer is being painted.
    pub open spec fn targets_mask(self) -> bool {
        &&& self.paint_target == PaintTarget::Mask
        &&& self.active < self.layers@.len()
        &&& self.layers@[self.active as int].mask is Some
    }

    /// Deletes what is being painted: the mask of the active layer, or the layer. The last layer
    /// is not deleted but cleared. The textures come back.
    pub fn remove_active_layer(&mut self) -> (freed: Vec<Handle>)
        requires
            old(self).layers@.len() <= 1 || old(self).active < old(self).layers@.len(),
        ensures
            final(self).same_frame(*old(self)),
            final(self).paint_target == PaintTarget::Content,
            final(self).composite_dirty,
            old(self).targets_mask() ==> {
                &&& final(self).differs_at(*old(self), old(self).active as int)
                &&& unmasked(
                    old(self).layers@[old(self).active as int],
                    final(self).layers@[old(self).active as int],
                )
                &&& final(self).active == old(self).active
                &&& freed@ == mask_textures(old(self).layers@[old(self).active as int])
            },
            !old(self).targets_mask() && old(self).layers@.len() <= 1 ==> {
                &&& final(self).layers@.len() == old(self).layers@.len()
                &&& old(self).layers@.len() == 1 ==> final(self).layers@[0] == (Layer {
                    needs_clear: old(self).layers@[0].needs_clear || old(self).layers@[0].kind
                        == LayerKind::Paint,
                    ..old(self).layers@[0]
                })
                &&& final(self).active == old(self).active
                &&& freed@.len() == 0
            },
            !old(self).targets_mask() && old(self).layers@.len() > 1 ==> {
                &&& final(self).layers@ == old(self).layers@.remove(old(self).active as int)
                &&& final(self).active == if old(self).active < old(self).layers@.len() - 1 {
                    old(self).active as int
                } else {
                    old(self).layers@.len() - 2
                }
                &&& freed@ == old(self).layers@[old(self).active as int].all_textures()
            },
            old(self).wf() ==> final(self).wf(),
            forall|ids: Seq<u32>| old(self).is_tiled(ids) ==> #[trigger] final(self).is_tiled(ids),
    {
        let targeting_mask = self.paint_target == PaintTarget::Mask && match self.active_layer() {
            Some(l) => l.mask.is_some(),
            None => false,
        };
        if targeting_mask {
            return self.remove_mask_from_active();
        }
        if self.layers.len() <= 1 {
            if self.layers.len() == 1 && self.layers[0].kind == LayerKind::Paint {
                self.layers[0].needs_clear = true;
            }
            self.paint_target = PaintTarget::Content;
            self.mark_dirty();
            return Vec::new();
        }
        let at: usize = self.active;
        let layer = self.layers.remove(at);
        let last: usize = self.layers.len() - 1;
        self.active = if at < last {
            at
        } else {
            last
        };
        self.paint_target = PaintTarget::Content;
        self.clamp_paint_target();
        self.mark_dirty();
        layer.gpu_handles()
    }

    /// Clears what is being painted: the mask of the active layer, or a paint layer.
    pub fn clear_active_layer(&mut self)
        ensures
            final(self).same_frame(*old(self)),
            final(self).active == old(self).active,
            final(self).paint_target == old(self).paint_target,
            final(self).composite_dirty,
            final(self).differs_at(*old(self), old(self).active as int),
            old(self).active < old(self).layers@.len() ==> ({
                let l = old(self).layers@[old(self).active as int];
                final(self).layers@[old(self).active as int] == if old(self).targets_mask() {
                    Layer { mask_init: Some(mask_fill(l.kind)), ..l }
                } else if l.kind == LayerKind::Paint {
                    Layer { needs_clear: true, ..l }
                } else {
                    l
                }
            }),
            old(self).targets_mask() ==> final(self).layers@[old(self).active as int].mask_init
                == match old(self).layers@[old(self).active as int].kind {
                LayerKind::Paint => Some([255u8, 255, 255, 255]),
                LayerKind::Fill => Some([0u8, 0, 0, 255]),
            },
            old(self).wf() ==> final(self).wf(),
            forall|ids: Seq<u32>| old(self).is_tiled(ids) ==> #[trigger] final(self).is_tiled(ids),
    {
        let at: usize = self.active;
        if at < self.layers.len() {
            if self.paint_target == PaintTarget::Mask && self.layers[at].mask.is_some() {
                let fill: [u8; 4] = mask_color(self.layers[at].kind);
                self.layers[at].mask_init = Some(fill);
            } else if self.layers[at].kind == LayerKind::Paint {
                self.layers[at].needs_clear = true;
            }
        }
        self.mark_dirty();
    }
}

/// Taking off the mask that was just added gives back the layer as it was and the textures that
/// the mask was made of.
pub proof fn law_mask_comes_off(
    before: Layer,
    with_mask: Layer,
    after: Layer,
    tex: Handle,
    extra: Seq<Tile>,
)
    requires
        before.mask is None,
        before.extra_mask@ == Seq::<Tile>::empty(),
        masked(before, with_mask, tex, extra),
        unmasked(with_mask, after),
    ensures
        after.all_textures() == before.all_textures(),
        after.name == before.name,
        after.visible == before.visible,
        after.opacity == before.opacity,
        after.kind == before.kind,
        after.fill == before.fill,
        after.tex == before.tex,
        after.needs_clear == before.needs_clear,
        mask_textures(with_mask) == seq![tex] + crate::paint::textures(extra),
{
}

/// A new mask takes nothing away from a painted layer, and hides a filled one until the mask is
/// painted: it begins white on the first and black on the second, opaque on both. Nothing else of
/// the layer changes.
pub proof fn law_new_masks_keep_strokes_and_hide_fillings(
    before: Layer,
    after: Layer,
    tex: Handle,
    extra: Seq<Tile>,
)
    requires
        masked(before, after, tex, extra),
    ensures
        before.kind == LayerKind::Paint ==> after.mask_init == Some([255u8, 255, 255, 255]),
        before.kind == LayerKind::Fill ==> after.mask_init == Some([0u8, 0, 0, 255]),
        after.mask == Some(tex),
        after.extra_mask@ == extra,
        after.name == before.name,
        after.visible == before.visible,
        after.opacity == before.opacity,
        after.kind == before.kind,
        after.fill == before.fill,
        after.tex == before.tex,
        after.extra_tex == before.extra_tex,
        after.needs_clear == before.needs_clear,
{
}

/// Taking a mask off leaves no texture of it, nothing to fill, and the rest of the layer as it was.
pub proof fn law_no_mask_is_left(before: Layer, after: Layer)
    requires
        unmasked(before, after),
    ensures
        after.mask is None,
        after.extra_mask@.len() == 0,
        after.mask_init is None,
        mask_textures(after).len() == 0,
        after.name == before.name,
        after.visible == before.visible,
        after.opacity == before.opacity,
        after.kind == before.kind,
        after.fill == before.fill,
        after.tex == before.tex,
        after.extra_tex == before.extra_tex,
        after.needs_clear == before.needs_clear,
{
}

/// Fillings are counted one by one: a filled layer on top counts one more, a painted one does not.
pub proof fn law_fillings_are_counted(layers: Seq<Layer>, l: Layer)
    ensures
        fill_count(Seq::<Layer>::empty()) == 0,
        fill_count(layers.push(l)) == fill_count(layers) + (if l.kind == LayerKind::Fill {
            1int
        } else {
            0
        }),
        fill_count(layers) <= layers.len(),
    decreases layers.len(),
{
    assert(layers.push(l).drop_last() =~= layers);
    if layers.len() > 0 {
        law_fillings_are_counted(layers.drop_last(), layers.last());
        assert(layers.drop_last().push(layers.last()) =~= layers);
    }
}

} // verus!
