//! What the panels collect during a frame, and how it is applied to the painter afterwards.

use vstd::prelude::*;

use crate::paint::{PaintDocument, PaintMap, PaintTarget, PaintTool};
use crate::painter::{DebugView, Painter};
use crate::scene::Handle;
use crate::segment::{AppMode, SegOp, SegTool};

verus! {

/// Clicks and edits of one frame.
#[derive(Clone, Copy, Debug, PartialEq, Eq, Structural)]
pub struct Actions {
    /// The next frame should follow soon.
    pub keep: bool,
    pub shape: usize,
    pub add_layer: bool,
    pub add_fill: bool,
    pub del_layer: bool,
    pub clear_layer: bool,
    pub move_up: bool,
    pub move_down: bool,
    pub active: usize,
    pub mask_click: Option<usize>,
    pub content_click: Option<usize>,
    pub dirty_layers: bool,
    pub open_model: bool,
    pub paint_map: PaintMap,
    pub debug_view: DebugView,
    pub tool: PaintTool,
    pub mode: AppMode,
    pub seg_tool: SegTool,
    pub seg_op: SegOp,
    pub rect_through: bool,
    pub add_segment: bool,
    pub del_segment: bool,
    pub unwrap_uv: bool,
    pub seg_overlay: bool,
    pub active_alpha: usize,
    pub active_nrm: usize,
}

/// What is to be done about the model.
#[derive(Clone, Copy, Debug, PartialEq, Eq, Structural)]
pub enum ModelStep {
    Stay,
    /// A model is to be opened.
    Open,
    /// A shape is to be shown.
    Show(usize),
}

/// What is left to do after the choices were applied.
#[derive(Clone, Copy, Debug, PartialEq, Eq, Structural)]
pub struct ChoiceStep {
    /// The marks on the faces have to go.
    pub clear_marks: bool,
    pub model: ModelStep,
}

impl Painter {
    /// The actions at the beginning of a frame: nothing clicked, and everything as it is.
    pub open spec fn no_actions(self) -> Actions {
        Actions {
            keep: false,
            shape: self.shape,
            add_layer: false,
            add_fill: false,
            del_layer: false,
            clear_layer: false,
            move_up: false,
            move_down: false,
            active: self.current_doc().active,
            mask_click: None,
            content_click: None,
            dirty_layers: false,
            open_model: false,
            paint_map: self.paint_map,
            debug_view: self.debug_view,
            tool: self.tool,
            mode: self.mode,
            seg_tool: self.seg_tool,
            seg_op: self.seg_op,
            rect_through: self.rect_through,
            add_segment: false,
            del_segment: false,
            unwrap_uv: false,
            seg_overlay: false,
            active_alpha: self.active_alpha,
            active_nrm: self.active_nrm,
        }
    }

    /// The actions at the beginning of a frame.
    pub fn begin_actions(&self) -> (a: Actions)
        requires
            self.wf(),
        ensures
            a == self.no_actions(),
    {
        Actions {
            keep: false,
            shape: self.shape,
            add_layer: false,
            add_fill: false,
            del_layer: false,
            clear_layer: false,
            move_up: false,
            move_down: false,
            active: self.doc().active,
            mask_click: None,
            content_click: None,
            dirty_layers: false,
            open_model: false,
            paint_map: self.paint_map,
            debug_view: self.debug_view,
            tool: self.tool,
            mode: self.mode,
            seg_tool: self.seg_tool,
            seg_op: self.seg_op,
            rect_through: self.rect_through,
            add_segment: false,
            del_segment: false,
            unwrap_uv: false,
            seg_overlay: false,
            active_alpha: self.active_alpha,
            active_nrm: self.active_nrm,
        }
    }

    /// The painter after the choices of a frame: map, mode, tools and stamps. The view changes
    /// only if painting goes on; a change of the mode brings its own view along.
    pub open spec fn with_choices(self, a: Actions) -> Painter {
        let viewed = Painter {
            paint_map: a.paint_map,
            debug_view: if a.mode == AppMode::Paint && self.mode == AppMode::Paint {
                a.debug_view
            } else {
                self.debug_view
            },
            ..self
        };
        let moded = if a.mode == self.mode {
            viewed
        } else {
            Painter {
                mode: a.mode,
                painting: false,
                last_stamp_px: None,
                rect_start: None,
                paint_debug_view: if a.mode == AppMode::Segment {
                    viewed.debug_view
                } else {
                    viewed.paint_debug_view
                },
                debug_view: if a.mode == AppMode::Segment {
                    DebugView::Wireframe
                } else {
                    viewed.paint_debug_view
                },
                seg_overlay_dirty: a.mode == AppMode::Segment || self.seg_overlay_dirty,
                ..viewed
            }
        };
        Painter {
            tool: a.tool,
            seg_tool: a.seg_tool,
            seg_op: a.seg_op,
            rect_through: a.rect_through,
            active_alpha: a.active_alpha,
            active_nrm: a.active_nrm,
            ..moded
        }
    }

    /// Applies the choices of a frame.
    pub fn apply_choices(&mut self, a: &Actions) -> (step: ChoiceStep)
        ensures
            *final(self) == old(self).with_choices(*a),
            step.clear_marks == (a.mode != old(self).mode && a.mode == AppMode::Paint),
            step.model == if a.open_model {
                ModelStep::Open
            } else if a.shape != old(self).shape {
                ModelStep::Show(a.shape)
            } else {
                ModelStep::Stay
            },
    {
        self.paint_map = a.paint_map;
        if a.mode == AppMode::Paint && self.mode == AppMode::Paint {
            self.debug_view = a.debug_view;
        }
        let clear_marks = self.set_mode(a.mode);
        self.tool = a.tool;
        self.seg_tool = a.seg_tool;
        self.seg_op = a.seg_op;
        self.rect_through = a.rect_through;
        self.active_alpha = a.active_alpha;
        self.active_nrm = a.active_nrm;
        let model = if a.open_model {
            ModelStep::Open
        } else if a.shape != self.shape {
            ModelStep::Show(a.shape)
        } else {
            ModelStep::Stay
        };
        ChoiceStep { clear_marks, model }
    }

    /// Applies what was clicked among the segments: adds one, deletes the active one, and notes
    /// that the marks on the faces have to be drawn anew.
    pub fn apply_segments(&mut self, a: &Actions)
        requires
            old(self).wf(),
        ensures
            final(self).wf(),
            *final(self) == (Painter {
                segmentation: final(self).segmentation,
                seg_overlay_dirty: old(self).seg_overlay_dirty || a.add_segment || a.del_segment
                    || a.seg_overlay,
                ..*old(self)
            }),
            exists|mid: crate::segment::Segmentation| #[trigger]
                segment_added(old(self).segmentation, mid, a.add_segment) && segment_deleted(
                    mid,
                    final(self).segmentation,
                    a.del_segment,
                ),
    {
        if a.add_segment {
            let _ = self.segmentation.add_segment();
            self.seg_overlay_dirty = true;
        }
        let ghost mid = self.segmentation;
        assert(segment_added(old(self).segmentation, mid, a.add_segment));
        if a.del_segment {
            self.segmentation.remove_active();
            self.seg_overlay_dirty = true;
        }
        if a.seg_overlay {
            self.seg_overlay_dirty = true;
        }
    }
}

/// A segment was added, or nothing happened.
pub open spec fn segment_added(
    s0: crate::segment::Segmentation,
    s1: crate::segment::Segmentation,
    add: bool,
) -> bool {
    if add {
        &&& s1.faces == s0.faces
        &&& s1.active == Some(s0.next_id)
        &&& s1.segments@.len() == s0.segments@.len() + 1
        &&& s1.segments@.drop_last() == s0.segments@
        &&& s1.segments@.last().id == s0.next_id
        &&& s1.segments@.last().name@ == "Segment "@ + crate::text::decimal(
            s0.segments@.len() + 1,
        )
        &&& s1.segments@.last().color == crate::segment::palette(s0.segments@.len())
        &&& s1.next_id == if s0.next_id == crate::segment::SegmentId::MAX {
            s0.next_id as int
        } else {
            s0.next_id + 1
        }
        &&& s1.added@ == s0.added@ + 1
    } else {
        s1 == s0
    }
}

/// The active segment was deleted, or nothing happened.
pub open spec fn segment_deleted(
    s0: crate::segment::Segmentation,
    s1: crate::segment::Segmentation,
    del: bool,
) -> bool {
    match s0.active {
        Some(id) => if del {
            &&& s1.labels() == crate::segment::without_segment(s0.labels(), id)
            &&& s1.segments@ == crate::segment::other_segments(s0.segments@, id)
            &&& s1.next_id == s0.next_id
            &&& s1.added == s0.added
            &&& s1.active == if s1.segments@.len() > 0 {
                Some(s1.segments@.last().id)
            } else {
                None
            }
        } else {
            s1 == s0
        },
        None => s1 == s0,
    }
}

/// The layer that was moved, and the stack after it.
pub open spec fn layer_moved(d0: PaintDocument, d1: PaintDocument, delta: int) -> bool {
    if d0.layers@.len() <= 1 || d0.moved_to(delta) == d0.active {
        d1 == d0
    } else {
        &&& d1.layers@ == crate::paint::exchanged(d0.layers@, d0.active as int, d0.moved_to(delta))
        &&& d1.active == d0.moved_to(delta)
        &&& d1.composite_dirty
        &&& d1.paint_target == d0.paint_target
        &&& d1.same_frame(d0)
    }
}

/// The mask or the content of a layer was clicked; the mask comes first.
pub open spec fn click_applied(
    before: Painter,
    after: Painter,
    a: Actions,
    fresh: Seq<Handle>,
) -> bool {
    match a.mask_click {
        Some(i) => crate::painter::mask_toggled(before, after, i as int, fresh),
        None => match a.content_click {
            Some(i) => after.current_doc() == if i < before.current_doc().layers@.len() {
                PaintDocument {
                    active: i,
                    paint_target: PaintTarget::Content,
                    ..before.current_doc()
                }
            } else {
                before.current_doc()
            },
            None => after.current_doc() == before.current_doc(),
        },
    }
}

/// The painter after each of the layer buttons, in the order in which they work: clicks on
/// layers, edits, new layer, new fill, delete, clear, up, down.
pub open spec fn layer_steps(
    t: Seq<Painter>,
    a: Actions,
    luma: u32,
    fresh_mask: Seq<Handle>,
    fresh_layer: Seq<Handle>,
    freed: Seq<Handle>,
) -> bool {
    &&& t.len() == 9
    &&& forall|k: int|
        0 <= k < 8 ==> crate::painter::only_current_doc(#[trigger] t[k], t[k + 1])
    &&& click_applied(t[0], t[1], a, fresh_mask)
    &&& t[2].current_doc() == if a.dirty_layers {
        PaintDocument { composite_dirty: true, ..t[1].current_doc() }
    } else {
        t[1].current_doc()
    }
    &&& if a.add_layer {
        crate::painter::layer_added(t[2], t[3], fresh_layer)
    } else {
        t[3] == t[2]
    }
    &&& if a.add_fill {
        crate::painter::fill_added(t[3], t[4], luma)
    } else {
        t[4] == t[3]
    }
    &&& if a.del_layer {
        crate::painter::layer_removed(t[4].current_doc(), t[5].current_doc(), freed)
    } else {
        t[5] == t[4] && freed.len() == 0
    }
    &&& if a.clear_layer {
        crate::painter::layer_cleared(t[5].current_doc(), t[6].current_doc())
    } else {
        t[6] == t[5]
    }
    &&& if a.move_up {
        layer_moved(t[6].current_doc(), t[7].current_doc(), 1)
    } else {
        t[7] == t[6]
    }
    &&& if a.move_down {
        layer_moved(t[7].current_doc(), t[8].current_doc(), -1)
    } else {
        t[8] == t[7]
    }
}

impl Painter {
    /// A click asks for a mask that is missing.
    pub open spec fn click_lacks_mask(self, a: Actions) -> bool {
        match a.mask_click {
            Some(i) => self.lacks_mask(i as int),
            None => false,
        }
    }

    /// Whether a click asks for a mask that is missing.
    pub fn click_wants_mask(&self, a: &Actions) -> (r: bool)
        requires
            self.wf(),
        ensures
            r == self.click_lacks_mask(*a),
    {
        match a.mask_click {
            Some(i) => self.wants_mask(i),
            None => false,
        }
    }

    fn do_click(&mut self, a: &Actions, fresh: Vec<Handle>)
        requires
            old(self).wf(),
            old(self).click_lacks_mask(*a) ==> fresh@.len() == old(self).tiles_wanted(),
        ensures
            final(self).wf(),
            crate::painter::only_current_doc(*old(self), *final(self)),
            click_applied(*old(self), *final(self), *a, fresh@),
    {
        proof {
            lemma_same_docs(*self);
        }
        match a.mask_click {
            Some(i) => self.toggle_mask_target(i, fresh),
            None => match a.content_click {
                Some(i) => {
                    if i < self.doc().layers.len() {
                        let d = self.doc_mut();
                        d.active = i;
                        d.paint_target = PaintTarget::Content;
                    }
                },
                None => {},
            },
        }
    }

    fn do_dirty(&mut self, a: &Actions)
        requires
            old(self).wf(),
        ensures
            final(self).wf(),
            crate::painter::only_current_doc(*old(self), *final(self)),
            final(self).current_doc() == if a.dirty_layers {
                PaintDocument { composite_dirty: true, ..old(self).current_doc() }
            } else {
                old(self).current_doc()
            },
    {
        proof {
            lemma_same_docs(*self);
        }
        if a.dirty_layers {
            let d = self.doc_mut();
            d.mark_dirty();
        }
    }

    fn do_add(&mut self, a: &Actions, fresh: Vec<Handle>)
        requires
            old(self).wf(),
            a.add_layer ==> fresh@.len() == old(self).tiles_wanted(),
        ensures
            final(self).wf(),
            crate::painter::only_current_doc(*old(self), *final(self)),
            if a.add_layer {
                crate::painter::layer_added(*old(self), *final(self), fresh@)
            } else {
                *final(self) == *old(self)
            },
    {
        proof {
            lemma_same_docs(*self);
        }
        if a.add_layer {
            self.add_layer(fresh);
        }
    }

    fn do_fill(&mut self, a: &Actions, luma: u32)
        requires
            old(self).wf(),
        ensures
            final(self).wf(),
            crate::painter::only_current_doc(*old(self), *final(self)),
            if a.add_fill {
                crate::painter::fill_added(*old(self), *final(self), luma)
            } else {
                *final(self) == *old(self)
            },
    {
        proof {
            lemma_same_docs(*self);
        }
        if a.add_fill {
            self.add_fill_layer(luma);
        }
    }

    fn do_delete(&mut self, a: &Actions) -> (freed: Vec<Handle>)
        requires
            old(self).wf(),
        ensures
            final(self).wf(),
            crate::painter::only_current_doc(*old(self), *final(self)),
            if a.del_layer {
                crate::painter::layer_removed(
                    old(self).current_doc(),
                    final(self).current_doc(),
                    freed@,
                )
            } else {
                *final(self) == *old(self) && freed@.len() == 0
            },
    {
        proof {
            lemma_same_docs(*self);
        }
        if a.del_layer {
            self.remove_active_layer()
        } else {
            Vec::new()
        }
    }

    fn do_clear(&mut self, a: &Actions)
        requires
            old(self).wf(),
        ensures
            final(self).wf(),
            crate::painter::only_current_doc(*old(self), *final(self)),
            if a.clear_layer {
                crate::painter::layer_cleared(old(self).current_doc(), final(self).current_doc())
            } else {
                *final(self) == *old(self)
            },
    {
        proof {
            lemma_same_docs(*self);
        }
        if a.clear_layer {
            self.clear_active_layer();
        }
    }

    fn do_move(&mut self, wanted: bool, delta: isize)
        requires
            old(self).wf(),
        ensures
            final(self).wf(),
            crate::painter::only_current_doc(*old(self), *final(self)),
            if wanted {
                layer_moved(old(self).current_doc(), final(self).current_doc(), delta as int)
            } else {
                *final(self) == *old(self)
            },
    {
        proof {
            lemma_same_docs(*self);
        }
        if wanted {
            let d = self.doc_mut();
            d.move_active(delta);
        }
    }

    /// Applies what was clicked among the layers. Textures that are no longer used come back.
    pub fn apply_layers(
        &mut self,
        a: &Actions,
        luma: u32,
        fresh_mask: Vec<Handle>,
        fresh_layer: Vec<Handle>,
    ) -> (freed: Vec<Handle>)
        requires
            old(self).wf(),
            old(self).click_lacks_mask(*a) ==> fresh_mask@.len() == old(self).tiles_wanted(),
            a.add_layer ==> fresh_layer@.len() == old(self).tiles_wanted(),
        ensures
            final(self).wf(),
            exists|t: Seq<Painter>| #[trigger]
                layer_steps(t, *a, luma, fresh_mask@, fresh_layer@, freed@) && t[0] == *old(self)
                    && t[8] == *final(self),
    {
        let ghost t0 = *self;
        self.do_click(a, fresh_mask);
        let ghost t1 = *self;
        self.do_dirty(a);
        let ghost t2 = *self;
        self.do_add(a, fresh_layer);
        let ghost t3 = *self;
        self.do_fill(a, luma);
        let ghost t4 = *self;
        let freed = self.do_delete(a);
        let ghost t5 = *self;
        self.do_clear(a);
        let ghost t6 = *self;
        self.do_move(a.move_up, 1);
        let ghost t7 = *self;
        self.do_move(a.move_down, -1);
        proof {
            let t = seq![t0, t1, t2, t3, t4, t5, t6, t7, *self];
            assert(layer_steps(t, *a, luma, fresh_mask@, fresh_layer@, freed@));
        }
        freed
    }

    /// Whether the next frame should follow soon: something was edited or done, or a stroke goes
    /// on.
    pub fn keeps_going(&self, a: &Actions) -> (r: bool)
        ensures
            r == (a.keep || a.open_model || a.add_segment || a.del_segment || a.unwrap_uv
                || self.painting),
    {
        a.keep || a.open_model || a.add_segment || a.del_segment || a.unwrap_uv || self.painting
    }
}

/// Writing the current stack back changes nothing.
proof fn lemma_same_docs(p: Painter)
    requires
        p.wf(),
    ensures
        crate::painter::only_current_doc(p, p),
{
    assert(p.docs@.update(p.paint_map.position(), p.current_doc()) =~= p.docs@);
}

/// A frame begins with nothing clicked and every choice as it stands, so that applying it right
/// away changes nothing.
pub proof fn law_a_frame_begins_as_it_is(p: Painter)
    requires
        p.wf(),
    ensures
        ({
            let a = p.no_actions();
            &&& !a.keep && !a.add_layer && !a.add_fill && !a.del_layer && !a.clear_layer
            &&& !a.move_up && !a.move_down && !a.dirty_layers && !a.open_model
            &&& !a.add_segment && !a.del_segment && !a.unwrap_uv && !a.seg_overlay
            &&& a.mask_click is None && a.content_click is None
            &&& a.shape == p.shape && a.active == p.docs@[p.paint_map.position()].active
            &&& p.with_choices(a) == p
        }),
{
}

/// Each choice of a frame becomes the painter's own, and none of them touches the layers, the
/// segments, the scene or the brush.
pub proof fn law_choices_are_taken_over(p: Painter, a: Actions)
    ensures
        ({
            let q = p.with_choices(a);
            &&& q.paint_map == a.paint_map
            &&& q.mode == a.mode
            &&& q.tool == a.tool
            &&& q.seg_tool == a.seg_tool
            &&& q.seg_op == a.seg_op
            &&& q.rect_through == a.rect_through
            &&& q.active_alpha == a.active_alpha
            &&& q.active_nrm == a.active_nrm
            &&& p.mode == AppMode::Paint && a.mode == AppMode::Paint ==> q.debug_view
                == a.debug_view
            &&& p.mode == AppMode::Segment && a.mode == AppMode::Segment ==> q.debug_view
                == p.debug_view
            &&& p.mode == AppMode::Paint && a.mode == AppMode::Segment ==> q.debug_view
                == DebugView::Wireframe && q.paint_debug_view == p.debug_view
            &&& p.mode == AppMode::Segment && a.mode == AppMode::Paint ==> q.debug_view
                == p.paint_debug_view
            &&& p.mode != a.mode ==> !q.painting && q.rect_start is None && q.last_stamp_px is None
            &&& q.docs == p.docs && q.segmentation == p.segmentation && q.scene == p.scene
            &&& q.brush == p.brush && q.shape == p.shape && q.paintable == p.paintable
            &&& q.status == p.status && q.pending_stamps == p.pending_stamps
        }),
{
}

/// Moving a layer up exchanges it with the one above, moving it down with the one below; it stays
/// the active one, and all others stay where they are.
pub proof fn law_layers_move_by_one(d0: PaintDocument, d1: PaintDocument, up: bool, i: int)
    requires
        d0.wf(),
        layer_moved(
            d0,
            d1,
            if up {
                1
            } else {
                -1
            },
        ),
        0 <= i < d0.layers@.len(),
    ensures
        ({
            let at = d0.active as int;
            let to = if up {
                at + 1
            } else {
                at - 1
            };
            let moves = 0 <= to < d0.layers@.len();
            &&& d1.layers@.len() == d0.layers@.len()
            &&& moves ==> d1.active == to && d1.layers@[to] == d0.layers@[at] && d1.layers@[at]
                == d0.layers@[to] && d1.composite_dirty
            &&& moves && i != at && i != to ==> d1.layers@[i] == d0.layers@[i]
            &&& !moves ==> d1 == d0
        }),
{
}

/// Every button does its own work and nothing else: with one of them clicked, the stack changes as
/// that button says; with none, it does not change.
pub proof fn law_one_button_one_effect(
    t: Seq<Painter>,
    a: Actions,
    luma: u32,
    fresh_mask: Seq<Handle>,
    fresh_layer: Seq<Handle>,
    freed: Seq<Handle>,
)
    requires
        layer_steps(t, a, luma, fresh_mask, fresh_layer, freed),
        t[0].wf(),
        t[0].paint_map == t[8].paint_map,
        a.mask_click is None,
    ensures
        ({
            let p = t[0];
            let q = t[8];
            let d0 = p.current_doc();
            let d1 = q.current_doc();
            let clicked = a.content_click is Some;
            let n = (if a.dirty_layers {
                1int
            } else {
                0
            }) + (if a.add_layer {
                1int
            } else {
                0
            }) + (if a.add_fill {
                1int
            } else {
                0
            }) + (if a.del_layer {
                1int
            } else {
                0
            }) + (if a.clear_layer {
                1int
            } else {
                0
            }) + (if a.move_up {
                1int
            } else {
                0
            }) + (if a.move_down {
                1int
            } else {
                0
            });
            &&& !clicked && n == 0 ==> d1 == d0 && freed.len() == 0
            &&& n == 0 && clicked && a.content_click->0 < d0.layers@.len() ==> d1.active
                == a.content_click->0 && d1.paint_target == PaintTarget::Content && d1.layers
                == d0.layers
            &&& !clicked && n == 1 && a.dirty_layers ==> d1.composite_dirty && d1.layers
                == d0.layers && d1.active == d0.active
            &&& !clicked && n == 1 && a.add_layer ==> crate::painter::layer_added(
                p,
                q,
                fresh_layer,
            )
            &&& !clicked && n == 1 && a.add_fill ==> crate::painter::fill_added(p, q, luma)
            &&& !clicked && n == 1 && a.del_layer ==> crate::painter::layer_removed(d0, d1, freed)
            &&& !clicked && n == 1 && a.clear_layer ==> crate::painter::layer_cleared(d0, d1)
            &&& !clicked && n == 1 && a.move_up ==> layer_moved(d0, d1, 1)
            &&& !clicked && n == 1 && a.move_down ==> layer_moved(d0, d1, -1)
        }),
{
    assert(crate::painter::only_current_doc(t[0], t[1]));
    assert(crate::painter::only_current_doc(t[1], t[2]));
    assert(t[0].docs@.update(t[0].paint_map.position(), t[0].current_doc()) =~= t[0].docs@);
}

/// A segment that is added has a label of its own from then on and is the active one; no face
/// changes. Deleting the active one gives its faces back and leaves the last segment active.
pub proof fn law_segment_buttons(
    s0: crate::segment::Segmentation,
    mid: crate::segment::Segmentation,
    s1: crate::segment::Segmentation,
    add: bool,
    del: bool,
    mesh: Handle,
    tri: int,
)
    requires
        segment_added(s0, mid, add),
        segment_deleted(mid, s1, del),
    ensures
        add ==> mid.segments@.len() == s0.segments@.len() + 1 && mid.active == Some(s0.next_id)
            && mid.segments@[s0.segments@.len() as int].id == s0.next_id && mid.labels()
            == s0.labels(),
        !add ==> mid == s0,
        !del ==> s1 == mid,
        del && mid.active is None ==> s1 == mid,
        del && mid.active is Some ==> {
            let id = mid.active->0;
            let was = crate::segment::label_in(mid.labels(), mesh, tri);
            let now = crate::segment::label_in(s1.labels(), mesh, tri);
            &&& was == id ==> now == 0
            &&& was != id ==> now == was
            &&& s1.segments@.len() > 0 ==> s1.active == Some(
                s1.segments@[s1.segments@.len() - 1].id,
            )
            &&& s1.segments@.len() == 0 ==> s1.active is None
        },
{
    if add {
        assert(mid.segments@.last() == mid.segments@[s0.segments@.len() as int]);
    }
}

/// A click on a mask goes to that mask, whatever else of the layer was clicked: it is painted from
/// then on, unless it was already, when the content is. Clicks change the stack of the current map
/// alone.
pub proof fn law_mask_clicks_go_to_the_mask(
    t: Seq<Painter>,
    a: Actions,
    luma: u32,
    fresh_mask: Seq<Handle>,
    fresh_layer: Seq<Handle>,
    freed: Seq<Handle>,
    i: usize,
    m: int,
)
    requires
        layer_steps(t, a, luma, fresh_mask, fresh_layer, freed),
        t[0].wf(),
        a.mask_click == Some(i),
        i < t[0].current_doc().layers@.len(),
        !a.dirty_layers && !a.add_layer && !a.add_fill && !a.del_layer && !a.clear_layer,
        !a.move_up && !a.move_down,
        0 <= m < 4,
    ensures
        ({
            let d0 = t[0].docs@[t[0].paint_map.position()];
            let d1 = t[8].docs@[t[0].paint_map.position()];
            let was = d0.active == i && d0.paint_target == PaintTarget::Mask;
            &&& d1.active == i
            &&& was ==> d1.paint_target == PaintTarget::Content
            &&& !was ==> d1.paint_target == PaintTarget::Mask && d1.layers@[i as int].mask is Some
            &&& m != t[0].paint_map.position() ==> t[8].docs@[m] == t[0].docs@[m]
            &&& freed.len() == 0
        }),
{
    assert(crate::painter::only_current_doc(t[0], t[1]));
    assert(crate::painter::only_current_doc(t[1], t[2]));
    crate::painter::law_masks_are_switched(t[0], t[1], i as int, fresh_mask);
}

} // verus!
