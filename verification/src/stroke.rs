//! Strokes: what the pointer does in the viewport, in either mode.

use vstd::prelude::*;

use crate::bits::{ONE, ZERO};
use crate::paint::{LayerKind, PaintDocument};
use crate::painter::{DebugView, Painter, PendingStamp, Point, ScreenRect};
use crate::pick::{Face, Hit};
use crate::scene::Handle;
use crate::segment::{AppMode, SegOp, SegTool, SegmentId, UNASSIGNED};

verus! {

/// What is left to do when the pointer has worked on segments.
pub enum SegStep {
    /// Nothing.
    Done,
    /// The faces around a hit are to be found and applied.
    Around(Hit),
}

/// What a rectangle stands for when the button goes up.
pub enum RectStep {
    /// Nothing was begun.
    Nothing,
    /// The rectangle is so small that it counts as a click.
    Click { at: Point, viewport: ScreenRect },
    /// The faces inside are to be found and applied.
    Inside { from: Point, to: Point, viewport: ScreenRect },
}

impl Painter {
    /// Hands out the stamps that wait.
    pub fn take_pending_stamps(&mut self) -> (stamps: Vec<PendingStamp>)
        ensures
            stamps@ == old(self).pending_stamps@,
            final(self).pending_stamps@ == Seq::<PendingStamp>::empty(),
            *final(self) == (Painter { pending_stamps: final(self).pending_stamps, ..*old(self) }),
    {
        let mut stamps: Vec<PendingStamp> = Vec::new();
        std::mem::swap(&mut stamps, &mut self.pending_stamps);
        stamps
    }

    /// The painter in a mode. Only a change of the mode changes anything else.
    pub open spec fn with_mode(self, mode: AppMode) -> Painter {
        if mode == self.mode {
            self
        } else {
            Painter {
                mode,
                painting: false,
                last_stamp_px: None,
                rect_start: None,
                paint_debug_view: if mode == AppMode::Segment {
                    self.debug_view
                } else {
                    self.paint_debug_view
                },
                debug_view: if mode == AppMode::Segment {
                    DebugView::Wireframe
                } else {
                    self.paint_debug_view
                },
                seg_overlay_dirty: mode == AppMode::Segment || self.seg_overlay_dirty,
                ..self
            }
        }
    }

    /// Changes the mode. Working on segments shows the wires; going back to painting shows what
    /// was shown before. Says whether the marks on the faces have to go.
    pub fn set_mode(&mut self, mode: AppMode) -> (clear_marks: bool)
        ensures
            clear_marks == (mode != old(self).mode && mode == AppMode::Paint),
            *final(self) == old(self).with_mode(mode),
    {
        if self.mode == mode {
            return false;
        }
        let clear = match mode {
            AppMode::Segment => {
                self.paint_debug_view = self.debug_view;
                self.debug_view = DebugView::Wireframe;
                self.seg_overlay_dirty = true;
                false
            },
            AppMode::Paint => {
                self.debug_view = self.paint_debug_view;
                true
            },
        };
        self.mode = mode;
        self.painting = false;
        self.last_stamp_px = None;
        self.rect_start = None;
        clear
    }

    /// Begins a stroke.
    pub fn begin_stroke(&mut self)
        requires
            old(self).wf(),
        ensures
            final(self).docs@ == old(self).docs@,
            *final(self) == (Painter {
                docs: final(self).docs,
                last_stamp_px: None,
                last_seg_face: None,
                rect_start: None,
                ..*old(self)
            }),
    {
        self.last_stamp_px = None;
        self.last_seg_face = None;
        self.rect_start = None;
        if self.mode == AppMode::Paint {
            let d = self.doc_mut();
            d.end_stroke();
            assert(self.docs@ =~= old(self).docs@);
        }
    }

    /// Ends a stroke. A rectangle that was begun is to be worked off before.
    pub fn end_stroke(&mut self)
        requires
            old(self).wf(),
        ensures
            final(self).docs@ == old(self).docs@,
            *final(self) == (Painter {
                docs: final(self).docs,
                last_stamp_px: None,
                last_seg_face: None,
                rect_start: None,
                ..*old(self)
            }),
    {
        if self.mode != AppMode::Segment {
            let d = self.doc_mut();
            d.end_stroke();
            assert(self.docs@ =~= old(self).docs@);
        }
        self.last_stamp_px = None;
        self.last_seg_face = None;
        self.rect_start = None;
    }

    /// A stroke needs a mask that is missing: a fill layer is painted through its mask.
    pub open spec fn lacks_stroke_mask(self) -> bool {
        match self.current_doc().current() {
            Some(l) => l.kind == LayerKind::Fill && l.mask is None,
            None => false,
        }
    }

    /// Whether a stroke needs a mask that is missing.
    pub fn stroke_wants_mask(&self) -> (r: bool)
        requires
            self.wf(),
        ensures
            r == self.lacks_stroke_mask(),
    {
        match self.doc().active_layer() {
            Some(l) => l.kind == LayerKind::Fill && l.mask.is_none(),
            None => false,
        }
    }

    /// Paints at a point: puts a stamp on the list, unless there is nothing to paint on or the
    /// point is too close to the last stamp. A fill layer without a mask gets one first. `near`
    /// decides from the last stamp, the point, the radius and the spacing. Says whether a stamp
    /// was put on the list.
    pub fn paint_at<F: Fn(Point, Point, u32, u32) -> bool>(
        &mut self,
        screen: Point,
        viewport: ScreenRect,
        local: Point,
        radius_px: u32,
        hit: Option<Hit>,
        near: F,
        fresh: Vec<Handle>,
    ) -> (stamped: bool)
        requires
            old(self).wf(),
            old(self).lacks_stroke_mask() ==> fresh@.len() == old(self).tiles_wanted(),
            forall|a: Point, b: Point, r: u32, s: u32| call_requires(near, (a, b, r, s)),
        ensures
            final(self).wf(),
            exists|ready: Painter| #[trigger]
                made_ready(*old(self), ready, fresh@) && stamp_step(
                    ready,
                    *final(self),
                    stamped,
                    near,
                    local,
                    new_stamp(screen, viewport, radius_px, hit),
                ),
    {
        if self.stroke_wants_mask() {
            let i: usize = self.doc().active;
            self.add_mask_to(i, fresh);
        } else {
            assert(self.docs@ =~= old(self).docs@.update(
                self.paint_map.position(),
                self.current_doc(),
            ));
        }
        let ghost ready = *self;
        assert(made_ready(*old(self), ready, fresh@));
        if self.stamp_target_tex().is_none() {
            return false;
        }
        match self.last_stamp_px {
            Some(prev) => {
                if near(prev, local, radius_px, self.brush.spacing) {
                    return false;
                }
            },
            None => {},
        }
        self.last_stamp_px = Some(local);
        let plane_normal: [u32; 3] = match hit {
            Some(h) => h.normal,
            None => [ZERO, ONE, ZERO],
        };
        let uv = match hit {
            Some(h) => Some(h.uv),
            None => None,
        };
        self.pending_stamps.push(
            PendingStamp { screen, viewport, screen_radius_px: radius_px, plane_normal, uv },
        );
        let d = self.doc_mut();
        d.mark_dirty();
        true
    }

    /// The label that picked faces get: the active segment's, or none.
    pub open spec fn seg_label(self) -> Option<SegmentId> {
        match self.seg_op {
            SegOp::Select => self.segmentation.active,
            SegOp::Deselect => Some(UNASSIGNED),
        }
    }

    /// Gives the picked faces to the active segment, or takes them out of theirs.
    pub fn apply_seg_faces(&mut self, faces: &Vec<Face>)
        requires
            old(self).wf(),
        ensures
            final(self).wf(),
            faces_given(*old(self), *final(self), faces@),
    {
        if faces.len() == 0 {
            return ;
        }
        let id: SegmentId = match self.seg_op {
            SegOp::Select => match self.segmentation.active {
                Some(id) => id,
                None => {
                    return ;
                },
            },
            SegOp::Deselect => UNASSIGNED,
        };
        self.segmentation.set_faces(faces, id);
        self.seg_overlay_dirty = true;
    }

    /// Works on segments at a point. A rectangle begins where the pointer first is; a click works
    /// on the face that was hit, once; the brush keeps its distance from the last place and then
    /// asks for the faces around the hit.
    pub fn segment_at<F: Fn(Point, Point, u32, u32) -> bool>(
        &mut self,
        screen: Point,
        viewport: ScreenRect,
        local: Point,
        radius_px: u32,
        hit: Option<Hit>,
        near: F,
    ) -> (step: SegStep)
        requires
            old(self).wf(),
            forall|a: Point, b: Point, r: u32, s: u32| call_requires(near, (a, b, r, s)),
        ensures
            final(self).wf(),
            final(self).last_seg_ptr == Some((screen, viewport)),
            old(self).seg_tool == SegTool::Rect ==> step is Done && *final(self) == (Painter {
                last_seg_ptr: Some((screen, viewport)),
                rect_start: match old(self).rect_start {
                    Some(p) => Some(p),
                    None => Some(screen),
                },
                ..*old(self)
            }),
            old(self).seg_tool == SegTool::Click ==> step is Done && click_step(
                *old(self),
                *final(self),
                screen,
                viewport,
                hit,
            ),
            old(self).seg_tool == SegTool::Brush ==> brush_step(
                *old(self),
                *final(self),
                step,
                near,
                screen,
                viewport,
                local,
                radius_px,
                hit,
            ),
    {
        self.last_seg_ptr = Some((screen, viewport));
        match self.seg_tool {
            SegTool::Rect => {
                if self.rect_start.is_none() {
                    self.rect_start = Some(screen);
                }
                SegStep::Done
            },
            SegTool::Click => {
                let h = match hit {
                    Some(h) => h,
                    None => {
                        return SegStep::Done;
                    },
                };
                match self.last_seg_face {
                    Some(last) => {
                        if last.0 == h.mesh && last.1 == h.tri_index {
                            return SegStep::Done;
                        }
                    },
                    None => {},
                }
                self.last_seg_face = Some((h.mesh, h.tri_index));
                let faces: Vec<Face> = vec![(h.mesh, h.tri_index)];
                assert(faces@ =~= seq![(h.mesh, h.tri_index)]);
                self.apply_seg_faces(&faces);
                SegStep::Done
            },
            SegTool::Brush => {
                match self.last_stamp_px {
                    Some(prev) => {
                        if near(prev, local, radius_px, self.brush.spacing) {
                            return SegStep::Done;
                        }
                    },
                    None => {},
                }
                let h = match hit {
                    Some(h) => h,
                    None => {
                        return SegStep::Done;
                    },
                };
                self.last_stamp_px = Some(local);
                SegStep::Around(h)
            },
        }
    }

    /// What the rectangle stands for when the button goes up.
    pub open spec fn ends_rect<F: Fn(Point, Point) -> bool>(self, near: F, step: RectStep) -> bool {
        match (self.rect_start, self.last_seg_ptr) {
            (Some(start), Some((end, viewport))) => {
                ||| call_ensures(near, (start, end), true) && step == (RectStep::Click {
                    at: end,
                    viewport,
                })
                ||| call_ensures(near, (start, end), false) && step == (RectStep::Inside {
                    from: start,
                    to: end,
                    viewport,
                })
            },
            _ => step is Nothing,
        }
    }

    /// What the rectangle stands for when the button goes up. `near` says whether two points are
    /// so close that the rectangle counts as a click.
    pub fn commit_rect_select<F: Fn(Point, Point) -> bool>(&self, near: F) -> (step: RectStep)
        requires
            forall|a: Point, b: Point| call_requires(near, (a, b)),
        ensures
            self.ends_rect(near, step),
    {
        match (self.rect_start, self.last_seg_ptr) {
            (Some(start), Some((end, viewport))) => {
                if near(start, end) {
                    RectStep::Click { at: end, viewport }
                } else {
                    RectStep::Inside { from: start, to: end, viewport }
                }
            },
            _ => RectStep::Nothing,
        }
    }
}

/// Working on segments and going back to painting shows what was shown before.
pub proof fn law_view_comes_back(p: Painter)
    requires
        p.mode == AppMode::Paint,
    ensures
        p.with_mode(AppMode::Segment).debug_view == DebugView::Wireframe,
        p.with_mode(AppMode::Segment).with_mode(AppMode::Paint).debug_view == p.debug_view,
        p.with_mode(AppMode::Segment).with_mode(AppMode::Paint).mode == AppMode::Paint,
{
}

/// The stamp for a point.
pub open spec fn new_stamp(
    screen: Point,
    viewport: ScreenRect,
    radius_px: u32,
    hit: Option<Hit>,
) -> PendingStamp {
    PendingStamp {
        screen,
        viewport,
        screen_radius_px: radius_px,
        plane_normal: match hit {
            Some(h) => h.normal,
            None => [ZERO, ONE, ZERO],
        },
        uv: match hit {
            Some(h) => Some(h.uv),
            None => None,
        },
    }
}

/// The painter after a missing mask was added.
pub open spec fn made_ready(before: Painter, ready: Painter, fresh: Seq<Handle>) -> bool {
    &&& ready == (Painter { docs: ready.docs, ..before })
    &&& ready.docs@ == before.docs@.update(before.paint_map.position(), ready.current_doc())
    &&& if before.lacks_stroke_mask() {
        crate::painter::mask_selected(before, ready, before.current_doc().active as int, fresh)
    } else {
        ready.current_doc() == before.current_doc()
    }
}

/// A point is too close to the last stamp.
pub open spec fn is_near<F: Fn(Point, Point, u32, u32) -> bool>(
    p: Painter,
    near: F,
    local: Point,
    radius_px: u32,
    e: bool,
) -> bool {
    match p.last_stamp_px {
        Some(prev) => call_ensures(near, (prev, local, radius_px, p.brush.spacing), e),
        None => !e,
    }
}

/// A stamp was put on the list, or nothing happened.
pub open spec fn stamp_step<F: Fn(Point, Point, u32, u32) -> bool>(
    ready: Painter,
    after: Painter,
    stamped: bool,
    near: F,
    local: Point,
    stamp: PendingStamp,
) -> bool {
    if ready.stamp_tiles().len() == 0 {
        !stamped && after == ready
    } else {
        ||| is_near(ready, near, local, stamp.screen_radius_px, true) && !stamped && after == ready
        ||| is_near(ready, near, local, stamp.screen_radius_px, false) && stamped && {
            &&& after.last_stamp_px == Some(local)
            &&& after.pending_stamps@ == ready.pending_stamps@.push(stamp)
            &&& after.docs@ == ready.docs@.update(
                ready.paint_map.position(),
                PaintDocument { composite_dirty: true, ..ready.current_doc() },
            )
            &&& after == (Painter {
                last_stamp_px: Some(local),
                pending_stamps: after.pending_stamps,
                docs: after.docs,
                ..ready
            })
        }
    }
}

/// The face that was hit got the label; a face that was the last one is left alone.
pub open spec fn click_step(
    before: Painter,
    after: Painter,
    screen: Point,
    viewport: ScreenRect,
    hit: Option<Hit>,
) -> bool {
    let pointed = Painter { last_seg_ptr: Some((screen, viewport)), ..before };
    match hit {
        Some(h) => if before.last_seg_face == Some((h.mesh, h.tri_index)) {
            after == pointed
        } else {
            &&& after.last_seg_face == Some((h.mesh, h.tri_index))
            &&& match before.seg_label() {
                Some(id) => {
                    &&& after.segmentation.labels() == crate::segment::painted(
                        before.segmentation.labels(),
                        seq![(h.mesh, h.tri_index)],
                        id,
                    )
                    &&& after.segmentation.segments == before.segmentation.segments
                    &&& after.segmentation.active == before.segmentation.active
                    &&& after.segmentation.next_id == before.segmentation.next_id
                    &&& after.segmentation.added == before.segmentation.added
                    &&& after == (Painter {
                        last_seg_face: after.last_seg_face,
                        segmentation: after.segmentation,
                        seg_overlay_dirty: true,
                        ..pointed
                    })
                },
                None => after == (Painter { last_seg_face: after.last_seg_face, ..pointed }),
            }
        },
        None => after == pointed,
    }
}

/// The brush went on to a new place, or nothing happened.
pub open spec fn brush_step<F: Fn(Point, Point, u32, u32) -> bool>(
    before: Painter,
    after: Painter,
    step: SegStep,
    near: F,
    screen: Point,
    viewport: ScreenRect,
    local: Point,
    radius_px: u32,
    hit: Option<Hit>,
) -> bool {
    let pointed = Painter { last_seg_ptr: Some((screen, viewport)), ..before };
    ||| is_near(before, near, local, radius_px, true) && step is Done && after == pointed
    ||| is_near(before, near, local, radius_px, false) && match hit {
        Some(h) => step == SegStep::Around(h) && after == (Painter {
            last_stamp_px: Some(local),
            ..pointed
        }),
        None => step is Done && after == pointed,
    }
}

/// A stroke that stamps puts exactly one stamp on the list, behind the others: at the pointer, as
/// wide as the brush is there, upright on the surface that was hit, or on the ground where none
/// was. It is the place that the next one keeps its distance from, and the stack has to be put
/// together again. A stroke that does not stamp leaves the painter as it was.
pub proof fn law_a_stroke_adds_one_stamp<F: Fn(Point, Point, u32, u32) -> bool>(
    ready: Painter,
    after: Painter,
    stamped: bool,
    near: F,
    screen: Point,
    viewport: ScreenRect,
    local: Point,
    radius_px: u32,
    hit: Option<Hit>,
)
    requires
        ready.wf(),
        stamp_step(ready, after, stamped, near, local, new_stamp(screen, viewport, radius_px, hit)),
    ensures
        !stamped ==> after == ready,
        stamped ==> {
            let n = ready.pending_stamps@.len() as int;
            let s = after.pending_stamps@[n];
            &&& after.pending_stamps@.len() == n + 1
            &&& after.pending_stamps@.take(n) == ready.pending_stamps@
            &&& s.screen == screen && s.viewport == viewport && s.screen_radius_px == radius_px
            &&& hit is Some ==> s.plane_normal == hit->0.normal && s.uv == Some(hit->0.uv)
            &&& hit is None ==> s.plane_normal == [0u32, 0x3f80_0000u32, 0u32] && s.uv is None
            &&& after.last_stamp_px == Some(local)
            &&& after.current_doc().composite_dirty
            &&& after.current_doc().layers == ready.current_doc().layers
        },
        stamped ==> match ready.last_stamp_px {
            Some(prev) => call_ensures(
                near,
                (prev, local, radius_px, ready.brush.spacing),
                false,
            ),
            None => true,
        },
        ready.last_stamp_px is None ==> (stamped <==> ready.stamp_tiles().len() > 0),
        ready.stamp_tiles().len() == 0 ==> !stamped,
{
    let n = ready.pending_stamps@.len() as int;
    if stamped {
        assert(after.pending_stamps@.take(n) =~= ready.pending_stamps@);
    }
}

/// A stroke goes to the textures of the active layer: to its mask if it is a filled one or its mask
/// is painted, else to its content. Without a layer there is nothing to paint on.
pub proof fn law_strokes_go_to_the_active_layer(p: Painter, j: int)
    requires
        p.wf(),
        0 <= j < p.stamp_tiles().len(),
    ensures
        ({
            let d = p.docs@[p.paint_map.position()];
            let l = d.layers@[d.active as int];
            let h = p.stamp_tiles()[j].1;
            let mask = l.kind == LayerKind::Fill || d.paint_target
                == crate::paint::PaintTarget::Mask;
            &&& d.active < d.layers@.len()
            &&& mask ==> l.mask == Some(h) || exists|k: int|
                0 <= k < l.extra_mask@.len() && (#[trigger] l.extra_mask@[k]).1 == h
            &&& !mask ==> l.tex == Some(h) || exists|k: int|
                0 <= k < l.extra_tex@.len() && (#[trigger] l.extra_tex@[k]).1 == h
        }),
{
    let d = p.current_doc();
    let l = d.layers@[d.active as int];
    let mask = l.kind == LayerKind::Fill || d.paint_target == crate::paint::PaintTarget::Mask;
    let first = if mask {
        l.mask
    } else {
        l.tex
    };
    let extra = if mask {
        l.extra_mask@
    } else {
        l.extra_tex@
    };
    assert(p.stamp_tiles() == crate::paint::tiles_of(p.udim_ids@, first, extra));
    match first {
        Some(h) => {
            if j > 0 {
                assert(p.stamp_tiles()[j] == extra[j - 1]);
            }
        },
        None => {
            assert(p.stamp_tiles()[j] == extra[j]);
        },
    }
}

/// A click gives the face that was hit to the active segment, or takes it out of its own, and
/// touches no other face; the same face is not worked on twice in a row.
pub proof fn law_a_click_labels_one_face(
    before: Painter,
    after: Painter,
    screen: Point,
    viewport: ScreenRect,
    hit: Option<Hit>,
    mesh: Handle,
    tri: u32,
)
    requires
        before.wf(),
        click_step(before, after, screen, viewport, hit),
    ensures
        ({
            let m0 = before.segmentation.labels();
            let m1 = after.segmentation.labels();
            let there = m0.contains_key(mesh) && tri < m0[mesh].len();
            let worked = hit is Some && hit->0.mesh == mesh && hit->0.tri_index == tri
                && before.last_seg_face != Some((mesh, tri));
            let now = crate::segment::label_in(m1, mesh, tri as int);
            let was = crate::segment::label_in(m0, mesh, tri as int);
            &&& there && worked && before.seg_op == SegOp::Deselect ==> now == 0
            &&& there && worked && before.seg_op == SegOp::Select
                && before.segmentation.active is Some ==> now
                == before.segmentation.active->0
            &&& !worked || before.seg_op == SegOp::Select && before.segmentation.active is None
                ==> now == was
            &&& after.docs == before.docs && after.pending_stamps == before.pending_stamps
            &&& hit is Some ==> after.last_seg_face == Some((hit->0.mesh, hit->0.tri_index))
        }),
{
    match hit {
        Some(h) => {
            let faces = seq![(h.mesh, h.tri_index)];
            assert(faces[0] == (h.mesh, h.tri_index));
            assert(faces.contains((h.mesh, h.tri_index)));
        },
        None => {},
    }
}

/// The segment brush works around what was hit, at most once per place: nothing changes but the
/// place it keeps its distance from.
pub proof fn law_the_segment_brush_keeps_its_distance<F: Fn(Point, Point, u32, u32) -> bool>(
    before: Painter,
    after: Painter,
    step: SegStep,
    near: F,
    screen: Point,
    viewport: ScreenRect,
    local: Point,
    radius_px: u32,
    hit: Option<Hit>,
)
    requires
        brush_step(before, after, step, near, screen, viewport, local, radius_px, hit),
    ensures
        step is Around ==> hit == Some(step->Around_0) && after.last_stamp_px == Some(local),
        step is Done ==> after.last_stamp_px == before.last_stamp_px,
        hit is None ==> step is Done,
        before.last_stamp_px is None && hit is Some ==> step is Around,
        step is Around && before.last_stamp_px is Some ==> call_ensures(
            near,
            (before.last_stamp_px->0, local, radius_px, before.brush.spacing),
            false,
        ),
        after.last_seg_ptr == Some((screen, viewport)),
        after.segmentation == before.segmentation,
        after.docs == before.docs,
{
}

/// A change of the mode ends what was begun in the other, and keeps everything else.
pub proof fn law_a_mode_begins_clean(p: Painter, mode: AppMode)
    requires
        mode != p.mode,
    ensures
        ({
            let q = p.with_mode(mode);
            &&& q.mode == mode
            &&& !q.painting && q.last_stamp_px is None && q.rect_start is None
            &&& mode == AppMode::Segment ==> q.debug_view == DebugView::Wireframe
                && q.seg_overlay_dirty && q.paint_debug_view == p.debug_view
            &&& mode == AppMode::Paint ==> q.debug_view == p.paint_debug_view
            &&& q.docs == p.docs && q.segmentation == p.segmentation && q.scene == p.scene
            &&& q.brush == p.brush && q.tool == p.tool && q.paint_map == p.paint_map
            &&& q.pending_stamps == p.pending_stamps && q.paintable == p.paintable
        }),
        p.with_mode(p.mode) == p,
{
}

/// A rectangle goes from where it was begun to where the pointer was last, in the viewport of that
/// time; one whose corners are too close counts as a click where the pointer was last. Where none
/// was begun, or the pointer was nowhere, nothing is done.
pub proof fn law_a_rectangle_is_a_rectangle_or_a_click<F: Fn(Point, Point) -> bool>(
    p: Painter,
    near: F,
    step: RectStep,
)
    requires
        p.ends_rect(near, step),
    ensures
        p.rect_start is None || p.last_seg_ptr is None ==> step is Nothing,
        step is Nothing ==> p.rect_start is None || p.last_seg_ptr is None,
        match step {
            RectStep::Nothing => true,
            RectStep::Click { at, viewport } => p.last_seg_ptr == Some((at, viewport))
                && call_ensures(near, (p.rect_start->0, at), true),
            RectStep::Inside { from, to, viewport } => p.last_seg_ptr == Some((to, viewport))
                && p.rect_start == Some(from) && call_ensures(near, (from, to), false),
        },
{
}

/// A stroke has to make a mask exactly where a filled layer without one is active.
pub proof fn law_fillings_are_painted_through_a_mask(p: Painter)
    requires
        p.wf(),
    ensures
        ({
            let d = p.docs@[p.paint_map.position()];
            let l = d.layers@[d.active as int];
            p.lacks_stroke_mask() <==> d.active < d.layers@.len() && l.kind == LayerKind::Fill
                && l.mask is None
        }),
{
}

/// Picked faces got the label, or nothing happened: there were none, or no segment is active.
pub open spec fn faces_given(before: Painter, after: Painter, faces: Seq<Face>) -> bool {
    if faces.len() == 0 || before.seg_label() is None {
        after == before
    } else {
        &&& after.segmentation.labels() == crate::segment::painted(
            before.segmentation.labels(),
            faces,
            before.seg_label()->0,
        )
        &&& after.segmentation.segments == before.segmentation.segments
        &&& after.segmentation.active == before.segmentation.active
        &&& after.segmentation.next_id == before.segmentation.next_id
        &&& after.segmentation.added == before.segmentation.added
        &&& after == (Painter {
            segmentation: after.segmentation,
            seg_overlay_dirty: true,
            ..before
        })
    }
}

/// Of picked faces each goes to the active segment when selecting, and to none when deselecting;
/// every other face keeps its label. The marks are drawn anew if there was something to do.
pub proof fn law_picked_faces_get_the_label(
    before: Painter,
    after: Painter,
    faces: Seq<Face>,
    mesh: Handle,
    tri: u32,
)
    requires
        faces_given(before, after, faces),
        before.segmentation.labels().contains_key(mesh),
        tri < before.segmentation.labels()[mesh].len(),
    ensures
        ({
            let was = before.segmentation.labels()[mesh][tri as int];
            let now = after.segmentation.labels()[mesh][tri as int];
            let picked = faces.contains((mesh, tri));
            &&& !picked ==> now == was
            &&& picked && before.seg_op == SegOp::Deselect ==> now == 0
            &&& picked && before.seg_op == SegOp::Select && before.segmentation.active is Some
                ==> now == before.segmentation.active->0
            &&& before.seg_op == SegOp::Select && before.segmentation.active is None ==> after
                == before
            &&& picked && !(before.seg_op == SegOp::Select && before.segmentation.active is None)
                ==> after.seg_overlay_dirty
            &&& after.docs == before.docs && after.brush == before.brush
        }),
{
    if faces.contains((mesh, tri)) {
        let k = choose|k: int| 0 <= k < faces.len() && faces[k] == (mesh, tri);
    }
}

} // verus!
