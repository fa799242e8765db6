//! What the pointer is used for, and what a frame does about it.

use vstd::prelude::*;

use crate::bits::{less, Rgba, ONE, ZERO};
use crate::input::{starve, Button, ButtonState, FrameInput, UiInput};
use crate::paint::PaintTool;
use crate::painter::{Painter, Point};
use crate::scene::{Handle, Scene};
use crate::segment::{AppMode, SegOp, SegTool, UNASSIGNED};

verus! {

/// What the pointer is used for.
#[derive(Clone, Copy, Debug, PartialEq, Eq, Structural)]
pub struct Session {
    /// The camera turns with the pointer.
    pub looking: bool,
    /// The camera moves with the pointer.
    pub panning: bool,
    /// The texture plane moves with the pointer.
    pub uv_panning: bool,
    /// The panels use the pointer.
    pub want_capture_mouse: bool,
    /// The next frame should follow soon.
    pub animating: bool,
}

/// What the pointer is over.
#[derive(Clone, Copy, Debug, PartialEq, Eq, Structural)]
pub struct Over {
    pub uv: bool,
    pub viewport: bool,
    pub gizmo: bool,
}

impl Session {
    /// The session at the start.
    pub fn new() -> (s: Session)
        ensures
            s == (Session {
                looking: false,
                panning: false,
                uv_panning: false,
                want_capture_mouse: false,
                animating: true,
            }),
    {
        Session {
            looking: false,
            panning: false,
            uv_panning: false,
            want_capture_mouse: false,
            animating: true,
        }
    }

    /// The pointer moves the camera or the texture plane.
    pub open spec fn drags(self) -> bool {
        self.looking || self.panning || self.uv_panning
    }

    /// Whether the pointer moves the camera or the texture plane. Only then its motion counts.
    pub fn is_dragging(&self) -> (r: bool)
        ensures
            r == self.drags(),
    {
        self.looking || self.panning || self.uv_panning
    }

    /// The session after a button went down or up. The right button turns the camera, the middle
    /// one moves it, or the texture plane.
    pub open spec fn with_button(self, button: Button, down: bool, over: Over) -> Session {
        match button {
            Button::Right => if down {
                Session {
                    looking: self.looking || !self.want_capture_mouse && !self.drags() && !over.uv
                        && over.viewport && !over.gizmo,
                    ..self
                }
            } else {
                Session { looking: false, ..self }
            },
            Button::Middle => if !down {
                Session { panning: false, uv_panning: false, ..self }
            } else if self.want_capture_mouse || self.looking {
                self
            } else if over.uv {
                Session { uv_panning: true, ..self }
            } else if over.viewport && !over.gizmo {
                Session { panning: true, ..self }
            } else {
                self
            },
            _ => self,
        }
    }

    /// The middle button starts to move something, so a stroke is given up.
    pub open spec fn gives_up_stroke(self, button: Button, down: bool, over: Over) -> bool {
        button == Button::Middle && down && !self.want_capture_mouse && !self.looking && (over.uv
            || over.viewport && !over.gizmo)
    }

    /// Takes a button down that went down or up. Returns whether the camera began or ceased to
    /// turn, as then the pointer has to be caught or set free.
    pub fn press(
        &mut self,
        painting: &mut bool,
        button: Button,
        down: bool,
        over: Over,
    ) -> (turned: bool)
        ensures
            *final(self) == old(self).with_button(button, down, over),
            *final(painting) == (*old(painting) && !old(self).gives_up_stroke(button, down, over)),
            turned == (final(self).looking != old(self).looking),
    {
        match button {
            Button::Right => {
                if down && !self.want_capture_mouse && !self.is_dragging() {
                    if !over.uv && over.viewport && !over.gizmo {
                        return self.set_looking(true);
                    }
                    false
                } else if !down {
                    self.set_looking(false)
                } else {
                    false
                }
            },
            Button::Middle => {
                if down && !self.want_capture_mouse && !self.looking {
                    if over.uv {
                        self.uv_panning = true;
                        *painting = false;
                    } else if over.viewport && !over.gizmo {
                        self.panning = true;
                        *painting = false;
                    }
                } else if !down {
                    self.panning = false;
                    self.uv_panning = false;
                }
                false
            },
            _ => false,
        }
    }

    /// Lets the camera turn with the pointer, or not. Returns whether that is a change.
    pub fn set_looking(&mut self, looking: bool) -> (changed: bool)
        ensures
            *final(self) == (Session { looking, ..*old(self) }),
            changed == (old(self).looking != looking),
    {
        if self.looking == looking {
            return false;
        }
        self.looking = looking;
        true
    }
}

/// What the escape key does.
#[derive(Clone, Copy, Debug, PartialEq, Eq, Structural)]
pub enum Escape {
    /// The camera turns no longer.
    StopLooking,
    /// The program ends.
    Exit,
}

/// What moves before a frame.
#[derive(Clone, Copy, Debug, PartialEq, Eq, Structural)]
pub enum Motion {
    /// The camera turns with the pointer.
    Turn,
    /// The texture plane moves with the pointer.
    PanUv,
    /// The camera goes on to the view that was asked for.
    Glide,
}

/// What the wheel makes larger or smaller.
#[derive(Clone, Copy, Debug, PartialEq, Eq, Structural)]
pub enum Zoom {
    Nothing,
    Uv,
    Viewport,
}

impl Session {
    /// What the escape key does: it lets go of the camera first.
    pub fn escape(&mut self) -> (e: Escape)
        ensures
            *final(self) == (Session { looking: false, ..*old(self) }),
            e == if old(self).looking {
                Escape::StopLooking
            } else {
                Escape::Exit
            },
    {
        if self.set_looking(false) {
            Escape::StopLooking
        } else {
            Escape::Exit
        }
    }

    /// What moves before a frame. Moving the camera sideways comes on top.
    pub fn motion(&self) -> (m: Motion)
        ensures
            m == if self.looking {
                Motion::Turn
            } else if self.uv_panning {
                Motion::PanUv
            } else {
                Motion::Glide
            },
    {
        if self.looking {
            Motion::Turn
        } else if self.uv_panning {
            Motion::PanUv
        } else {
            Motion::Glide
        }
    }

    /// The panels get nothing of the pointer: it moves something, or the camera is on its way.
    pub open spec fn starves(self, snapping: bool) -> bool {
        self.drags() || snapping
    }

    /// What the panels get to know for a frame.
    pub fn frame_ui(&self, input: &FrameInput, snapping: bool, viewport: Point, dt: u32) -> (ui:
        UiInput)
        ensures
            exists|whole: UiInput| #[trigger]
                input.is_shown(whole, viewport, dt) && ui == if self.starves(snapping) {
                    crate::input::starved(whole)
                } else {
                    whole
                },
    {
        let mut ui = input.to_ui(viewport, dt);
        let ghost whole = ui;
        if self.is_dragging() || snapping {
            starve(&mut ui);
        }
        assert(input.is_shown(whole, viewport, dt));
        ui
    }
}

/// What the wheel makes larger or smaller: the texture plane if the pointer is over it, else what
/// the viewport shows.
pub open spec fn zoomed(scroll_y: u32, over: Over) -> Zoom {
    if !crate::bits::is_less(scroll_y, ZERO) && !crate::bits::is_less(ZERO, scroll_y) {
        Zoom::Nothing
    } else if over.uv {
        Zoom::Uv
    } else if over.viewport {
        Zoom::Viewport
    } else {
        Zoom::Nothing
    }
}

/// What the wheel makes larger or smaller: the texture plane if the pointer is over it, else what
/// the viewport shows.
pub fn zoom_target(scroll_y: u32, over: Over) -> (z: Zoom)
    ensures
        z == zoomed(scroll_y, over),
{
    if !less(scroll_y, ZERO) && !less(ZERO, scroll_y) {
        Zoom::Nothing
    } else if over.uv {
        Zoom::Uv
    } else if over.viewport {
        Zoom::Viewport
    } else {
        Zoom::Nothing
    }
}

/// What the pointer does in the viewport.
#[derive(Clone, Copy, Debug, PartialEq, Eq, Structural)]
pub enum Touch {
    Nothing,
    /// A view is chosen on the gizmo.
    Choose,
    /// A stroke begins.
    Begin,
    /// A stroke goes on.
    GoOn,
}

/// What a frame does with the pointer in the viewport.
#[derive(Clone, Copy, Debug, PartialEq, Eq, Structural)]
pub struct TouchPlan {
    pub touch: Touch,
    /// The stroke ends, after that.
    pub end: bool,
    /// A stroke is under way after the frame.
    pub painting: bool,
}

/// What the pointer does in the viewport.
pub open spec fn touch_of(
    left: ButtonState,
    over: bool,
    over_gizmo: bool,
    captured: bool,
    painting: bool,
) -> Touch {
    if left.pressed && over && !captured {
        if over_gizmo {
            Touch::Choose
        } else {
            Touch::Begin
        }
    } else if painting && left.down && over && !over_gizmo {
        Touch::GoOn
    } else {
        Touch::Nothing
    }
}

impl Session {
    /// What a frame does with the pointer in the viewport, if that is shown and the pointer moves
    /// nothing. A stroke ends when the button is up.
    pub open spec fn planned(
        self,
        left: ButtonState,
        shown: bool,
        over: bool,
        over_gizmo: bool,
        painting: bool,
    ) -> TouchPlan {
        if self.drags() || !shown {
            TouchPlan { touch: Touch::Nothing, end: false, painting }
        } else {
            let touch = touch_of(left, over, over_gizmo, self.want_capture_mouse, painting);
            let stroke = painting || touch == Touch::Begin;
            let up = left.released || !left.down;
            TouchPlan { touch, end: up && stroke, painting: stroke && !up }
        }
    }

    /// What a frame does with the pointer in the viewport, if that is shown and the pointer moves
    /// nothing. A stroke ends when the button is up.
    pub fn touch(
        &self,
        left: ButtonState,
        shown: bool,
        over: bool,
        over_gizmo: bool,
        painting: bool,
    ) -> (plan: TouchPlan)
        ensures
            plan == self.planned(left, shown, over, over_gizmo, painting),
    {
        if self.is_dragging() || !shown {
            return TouchPlan { touch: Touch::Nothing, end: false, painting };
        }
        let touch = if left.pressed && over && !self.want_capture_mouse {
            if over_gizmo {
                Touch::Choose
            } else {
                Touch::Begin
            }
        } else if painting && left.down && over && !over_gizmo {
            Touch::GoOn
        } else {
            Touch::Nothing
        };
        let stroke = painting || touch == Touch::Begin;
        let up = left.released || !left.down;
        TouchPlan { touch, end: up && stroke, painting: stroke && !up }
    }

    /// Whether the brush is shown under the pointer.
    pub fn shows_cursor(&self, shown: bool, over: bool) -> (r: bool)
        ensures
            r == (shown && !self.drags() && !self.want_capture_mouse && over),
    {
        shown && !self.is_dragging() && !self.want_capture_mouse && over
    }

    /// Whether the shape of the pointer has to be changed. While the camera turns it is not seen.
    pub fn changes_cursor(&self, same: bool) -> (r: bool)
        ensures
            r == (!self.looking && !same),
    {
        !self.looking && !same
    }
}

impl Painter {
    /// Something has to be put together again.
    pub open spec fn has_work(self) -> bool {
        self.needs_map_seed || exists|i: int|
            0 <= i < self.docs@.len() && (#[trigger] self.docs@[i]).composite_dirty
    }

    /// Whether something has to be put together again.
    pub fn needs_composite(&self) -> (r: bool)
        ensures
            r == self.has_work(),
    {
        if self.needs_map_seed {
            return true;
        }
        let mut i: usize = 0;
        while i < self.docs.len()
            invariant
                i <= self.docs@.len(),
                forall|k: int| 0 <= k < i ==> !(#[trigger] self.docs@[k]).composite_dirty,
            decreases self.docs@.len() - i,
        {
            if self.docs[i].composite_dirty {
                return true;
            }
            i += 1;
        }
        false
    }

    /// The next frame should follow soon.
    pub open spec fn is_busy(self, session: Session, keep_ui: bool, needs_repaint: bool) -> bool {
        keep_ui || session.drags() || self.painting || self.snapping || needs_repaint
            || self.has_work()
    }

    /// Takes down whether the next frame should follow soon.
    pub fn note_activity(&self, session: &mut Session, keep_ui: bool, needs_repaint: bool)
        ensures
            *final(session) == (Session {
                animating: self.is_busy(*old(session), keep_ui, needs_repaint),
                ..*old(session)
            }),
    {
        let busy = self.needs_composite();
        session.animating = keep_ui || session.is_dragging() || self.painting || self.snapping
            || needs_repaint || busy;
    }

    /// How long to wait for the next frame, in milliseconds.
    pub fn wait_ms(&self, session: &Session) -> (ms: u64)
        ensures
            ms == if session.animating || session.drags() || self.painting || self.snapping {
                8u64
            } else {
                33u64
            },
    {
        if session.animating || session.is_dragging() || self.painting || self.snapping {
            8
        } else {
            33
        }
    }

    /// The camera goes to a view that was chosen, without perspective.
    pub fn start_snap(&mut self)
        ensures
            *final(self) == (Painter { snapping: true, ortho_from_view: true, ..*old(self) }),
    {
        self.snapping = true;
        self.ortho_from_view = true;
    }

    /// Says in the status which view was chosen.
    pub fn note_view(&mut self, axis: &str)
        ensures
            final(self).status@ == "View "@ + axis@ + " · ortho"@,
            *final(self) == (Painter { status: final(self).status, ..*old(self) }),
    {
        self.status = crate::text::concat3("View ", axis, " · ortho");
    }

    /// Goes on towards the chosen view, of which a share has been done. Returns whether the camera
    /// moved.
    pub fn tick_snap(&mut self, share: u32) -> (moved: bool)
        ensures
            moved == old(self).snapping,
            *final(self) == (Painter {
                snapping: old(self).snapping && !crate::bits::is_at_least(share, ONE),
                ..*old(self)
            }),
    {
        if !self.snapping {
            return false;
        }
        if crate::bits::at_least(share, ONE) {
            self.snapping = false;
        }
        true
    }

    /// Whether the camera is on its way to a chosen view.
    pub fn orbit_snap_active(&self) -> (r: bool)
        ensures
            r == self.snapping,
    {
        self.snapping
    }

    /// Stops the camera on its way to a chosen view, perhaps back to perspective. Returns whether
    /// the camera has to be set again.
    pub fn interrupt_orbit_snap(&mut self, restore_perspective: bool) -> (moved: bool)
        ensures
            moved == (restore_perspective && old(self).ortho_from_view),
            *final(self) == (Painter {
                snapping: false,
                ortho_from_view: old(self).ortho_from_view && !restore_perspective,
                ..*old(self)
            }),
    {
        self.snapping = false;
        if restore_perspective && self.ortho_from_view {
            self.ortho_from_view = false;
            return true;
        }
        false
    }
}

/// The frames since the rate was last worked out.
#[derive(Clone, Copy, Debug, PartialEq, Eq, Structural)]
pub struct FrameCounter {
    pub frames: u32,
}

impl FrameCounter {
    /// Counts a frame. Returns the number of frames once a second has passed, and begins anew.
    pub fn count(&mut self, seconds: u32) -> (due: Option<u32>)
        requires
            old(self).frames < u32::MAX,
        ensures
            due == if crate::bits::is_at_least(seconds, ONE) {
                Some((old(self).frames + 1) as u32)
            } else {
                None
            },
            final(self).frames == if crate::bits::is_at_least(seconds, ONE) {
                0
            } else {
                old(self).frames + 1
            },
    {
        self.frames += 1;
        if crate::bits::at_least(seconds, ONE) {
            let n: u32 = self.frames;
            self.frames = 0;
            return Some(n);
        }
        None
    }
}

/// The camera begins to turn only over the viewport, while nothing is moved and the panels do not
/// use the pointer. Letting a button go ends what it moved.
pub proof fn law_turning_begins_alone(s: Session, over: Over)
    ensures
        !s.looking && s.with_button(Button::Right, true, over).looking ==> !s.drags()
            && !s.want_capture_mouse && over.viewport && !over.uv && !over.gizmo,
        !s.with_button(Button::Right, false, over).looking,
        !s.with_button(Button::Middle, false, over).panning,
        !s.with_button(Button::Middle, false, over).uv_panning,
{
}

/// A face that is marked with the colour of its segment, on a node that shows it.
#[derive(Clone, Copy, Debug, PartialEq, Eq, Structural)]
pub struct Mark {
    pub node: Handle,
    pub mesh: Handle,
    pub tri: u32,
    pub color: Rgba,
}

/// The first of some nodes that draws a mesh.
pub open spec fn carrier(scene: Scene, nodes: Seq<Handle>, mesh: Handle) -> Option<Handle>
    decreases nodes.len(),
{
    if nodes.len() == 0 {
        None
    } else {
        match scene.drawn(nodes[0]) {
            Some(info) => if info.handle == mesh {
                Some(nodes[0])
            } else {
                carrier(scene, nodes.skip(1), mesh)
            },
            None => carrier(scene, nodes.skip(1), mesh),
        }
    }
}

fn find_carrier(scene: &Scene, nodes: &Vec<Handle>, mesh: Handle) -> (h: Option<Handle>)
    ensures
        h == carrier(*scene, nodes@, mesh),
{
    let mut i: usize = 0;
    assert(nodes@.skip(0) =~= nodes@);
    while i < nodes.len()
        invariant
            i <= nodes@.len(),
            carrier(*scene, nodes@, mesh) == carrier(*scene, nodes@.skip(i as int), mesh),
        decreases nodes@.len() - i,
    {
        assert(nodes@.skip(i as int)[0] == nodes@[i as int]);
        assert(nodes@.skip(i as int).skip(1) =~= nodes@.skip(i + 1));
        match scene.visible_mesh_of(nodes[i]) {
            Some(info) => {
                if info.handle == mesh {
                    return Some(nodes[i]);
                }
            },
            None => {},
        }
        i += 1;
    }
    None
}

/// A face can be marked: a node draws its mesh, and the mesh has it.
pub open spec fn can_mark(scene: Scene, nodes: Seq<Handle>, m: Mark) -> bool {
    &&& carrier(scene, nodes, m.mesh) == Some(m.node)
    &&& match scene.mesh(m.mesh) {
        Some(info) => 3 * m.tri + 2 < info.index_count,
        None => false,
    }
}

impl Painter {
    /// A face is marked: it is in a segment, has the colour of that, and can be marked.
    pub open spec fn marks(self, m: Mark) -> bool {
        let label = crate::segment::label_in(self.segmentation.labels(), m.mesh, m.tri as int);
        &&& label != UNASSIGNED
        &&& crate::segment::color_in(self.segmentation.segments@, label) == Some(m.color)
        &&& can_mark(self.scene, self.paintable@, m)
    }

    /// The marks on the faces, if they have to be made anew: while segments are worked on, and
    /// something changed. In which order they come is not fixed.
    pub fn sync_segment_overlay(&mut self) -> (marks: Option<Vec<Mark>>)
        requires
            old(self).wf(),
        ensures
            final(self).wf(),
            match marks {
                Some(marks) => {
                    &&& old(self).mode == AppMode::Segment && old(self).seg_overlay_dirty
                    &&& marks@.no_duplicates()
                    &&& forall|m: Mark| #[trigger] marks@.contains(m) <==> old(self).marks(m)
                    &&& *final(self) == (Painter { seg_overlay_dirty: false, ..*old(self) })
                },
                None => {
                    &&& old(self).mode != AppMode::Segment || !old(self).seg_overlay_dirty
                    &&& *final(self) == *old(self)
                },
            },
    {
        if self.mode != AppMode::Segment || !self.seg_overlay_dirty {
            return None;
        }
        self.seg_overlay_dirty = false;
        let faces = self.segmentation.overlay_faces();
        let mut marks: Vec<Mark> = Vec::new();
        let mut i: usize = 0;
        let ghost scene = self.scene;
        let ghost nodes = self.paintable@;
        while i < faces.len()
            invariant
                i <= faces@.len(),
                *self == (Painter { seg_overlay_dirty: false, ..*old(self) }),
                scene == self.scene,
                nodes == self.paintable@,
                faces@.no_duplicates(),
                marks@.no_duplicates(),
                forall|m: Mark| #[trigger]
                    marks@.contains(m) <==> faces@.take(i as int).contains(
                        (m.mesh, m.tri, m.color),
                    ) && can_mark(scene, nodes, m),
            decreases faces@.len() - i,
        {
            let (mesh, tri, color) = faces[i];
            let ghost before = marks@;
            let ghost seen = faces@.take(i as int);
            proof {
                crate::tables::lemma_take_contains(faces@, i as int);
            }
            let big: bool = match self.scene.find_mesh(mesh) {
                Some(k) => {
                    let corner: u64 = 3 * tri as u64 + 2;
                    corner < self.scene.meshes[k].index_count as u64
                },
                None => false,
            };
            match find_carrier(&self.scene, &self.paintable, mesh) {
                Some(node) => {
                    let m = Mark { node, mesh, tri, color };
                    if big {
                        assert(!before.contains(m)) by {
                            if before.contains(m) {
                                assert(seen.contains((mesh, tri, color)));
                                let k = choose|k: int|
                                    0 <= k < seen.len() && seen[k] == (mesh, tri, color);
                                assert(faces@[k] == faces@[i as int]);
                            }
                        }
                        marks.push(m);
                        proof {
                            assert(can_mark(scene, nodes, m));
                            lemma_push_contains(before, m);
                        }
                    }
                },
                None => {},
            }
            proof {
                assert forall|m: Mark| #[trigger] marks@.contains(m) <==> faces@.take(
                    i + 1,
                ).contains((m.mesh, m.tri, m.color)) && can_mark(scene, nodes, m) by {
                    assert(before.contains(m) <==> seen.contains((m.mesh, m.tri, m.color))
                        && can_mark(scene, nodes, m));
                }
            }
            i += 1;
        }
        assert(faces@.take(i as int) =~= faces@);
        Some(marks)
    }
}

proof fn lemma_push_contains<T>(s: Seq<T>, x: T)
    ensures
        forall|y: T| #[trigger] s.push(x).contains(y) <==> s.contains(y) || y == x,
        s.no_duplicates() && !s.contains(x) ==> s.push(x).no_duplicates(),
{
    let t = s.push(x);
    assert forall|y: T| #[trigger] t.contains(y) <==> s.contains(y) || y == x by {
        if s.contains(y) {
            let k = choose|k: int| 0 <= k < s.len() && s[k] == y;
            assert(t[k] == y);
        }
        if y == x {
            assert(t[s.len() as int] == x);
        }
    }
}

/// How the brush is shown under the pointer.
#[derive(Clone, Copy, Debug)]
pub enum Cursor {
    /// Not at all.
    Hidden,
    /// A rectangle from a corner to the pointer.
    Frame { from: Point, color: Rgba },
    /// A cross, perhaps with a ring around it.
    Ring { radius: u32, ring: bool, color: Rgba },
}

/// A ring with a smaller radius is left out: 0.00001.
pub const NO_RING: u32 = 0x3727_c5ac;

/// The colour in which a segment tool is shown.
pub open spec fn segment_tint(op: SegOp) -> Rgba {
    match op {
        SegOp::Select => Rgba { r: ONE, g: 0x3f6b_851f, b: 0x3eb3_3333, a: 0x3f6b_851f },
        SegOp::Deselect => Rgba { r: 0x3f0c_cccd, g: 0x3f40_0000, b: ONE, a: 0x3f6b_851f },
    }
}

/// The colour in which a paint tool is shown.
pub open spec fn tool_tint(tool: PaintTool) -> Rgba {
    match tool {
        PaintTool::Paint => Rgba { r: ONE, g: ONE, b: ONE, a: 0x3f6b_851f },
        PaintTool::Eraser => Rgba { r: 0x3f0c_cccd, g: 0x3f40_0000, b: ONE, a: 0x3f6b_851f },
    }
}

impl Painter {
    /// How the brush is shown under the pointer.
    pub open spec fn shown_cursor(self, screen: Point, show: bool, over_gizmo: bool) -> Cursor {
        if !show || over_gizmo {
            Cursor::Hidden
        } else if self.mode == AppMode::Paint {
            Cursor::Ring {
                radius: self.brush.radius,
                ring: crate::bits::is_less(NO_RING, self.brush.radius),
                color: tool_tint(self.tool),
            }
        } else {
            match self.seg_tool {
                SegTool::Rect => Cursor::Frame {
                    from: match self.rect_start {
                        Some(p) => p,
                        None => screen,
                    },
                    color: segment_tint(self.seg_op),
                },
                SegTool::Click => Cursor::Ring {
                    radius: ZERO,
                    ring: false,
                    color: segment_tint(self.seg_op),
                },
                SegTool::Brush => Cursor::Ring {
                    radius: self.brush.radius,
                    ring: crate::bits::is_less(NO_RING, self.brush.radius),
                    color: segment_tint(self.seg_op),
                },
            }
        }
    }

    /// How the brush is shown under the pointer. A rectangle that was not begun is a point.
    pub fn brush_cursor(&self, screen: Point, show: bool, over_gizmo: bool) -> (c: Cursor)
        ensures
            c == self.shown_cursor(screen, show, over_gizmo),
    {
        if !show || over_gizmo {
            return Cursor::Hidden;
        }
        let ring = less(NO_RING, self.brush.radius);
        match self.mode {
            AppMode::Paint => {
                let color = match self.tool {
                    PaintTool::Paint => Rgba::new(ONE, ONE, ONE, 0x3f6b_851f),
                    PaintTool::Eraser => Rgba::new(0x3f0c_cccd, 0x3f40_0000, ONE, 0x3f6b_851f),
                };
                Cursor::Ring { radius: self.brush.radius, ring, color }
            },
            AppMode::Segment => {
                let color = match self.seg_op {
                    SegOp::Select => Rgba::new(ONE, 0x3f6b_851f, 0x3eb3_3333, 0x3f6b_851f),
                    SegOp::Deselect => Rgba::new(0x3f0c_cccd, 0x3f40_0000, ONE, 0x3f6b_851f),
                };
                match self.seg_tool {
                    SegTool::Rect => Cursor::Frame {
                        from: match self.rect_start {
                            Some(p) => p,
                            None => screen,
                        },
                        color,
                    },
                    SegTool::Click => Cursor::Ring { radius: ZERO, ring: false, color },
                    SegTool::Brush => Cursor::Ring { radius: self.brush.radius, ring, color },
                }
            },
        }
    }
}

/// A button changes what it moves and nothing else. The right one turns the camera: it begins
/// over the viewport while the pointer is free, and is over when the button is up. The middle one
/// moves the texture plane where the pointer is over it, else the camera, unless the camera turns
/// or the panels use the pointer; a stroke is given up exactly then. The left one moves nothing.
pub proof fn law_buttons_move_their_own(s: Session, over: Over, button: Button, down: bool)
    ensures
        ({
            let t = s.with_button(button, down, over);
            let free = !s.want_capture_mouse && !s.looking;
            let seen = over.viewport && !over.gizmo;
            &&& t.want_capture_mouse == s.want_capture_mouse && t.animating == s.animating
            &&& button != Button::Right ==> t.looking == s.looking
            &&& button != Button::Middle ==> t.panning == s.panning && t.uv_panning
                == s.uv_panning
            &&& button == Button::Right && !down ==> !t.looking
            &&& button == Button::Right && down && s.looking ==> t.looking
            &&& button == Button::Right && down && free && !s.panning && !s.uv_panning && seen
                && !over.uv ==> t.looking
            &&& button == Button::Right && down && !s.looking && (s.want_capture_mouse || s.panning
                || s.uv_panning || over.uv || !over.viewport || over.gizmo) ==> !t.looking
            &&& button == Button::Middle && !down ==> !t.panning && !t.uv_panning
            &&& button == Button::Middle && down && free && over.uv ==> t.uv_panning && t.panning
                == s.panning
            &&& button == Button::Middle && down && free && !over.uv && seen ==> t.panning
                && t.uv_panning == s.uv_panning
            &&& button == Button::Middle && down && (!free || !over.uv && !seen) ==> t == s
            &&& s.gives_up_stroke(button, down, over) ==> button == Button::Middle && down && free
                && (over.uv || seen)
            &&& button == Button::Middle && down && free && (over.uv || seen)
                ==> s.gives_up_stroke(button, down, over)
        }),
{
}

/// A stroke begins only with a press over the viewport, off the gizmo, while the pointer is free;
/// on the gizmo such a press chooses a view. It goes on while the button is held over the viewport,
/// and is over as soon as the button is up. Where the pointer moves something, or the viewport is
/// not shown, all stays as it is.
pub proof fn law_strokes_begin_and_end(
    s: Session,
    left: ButtonState,
    shown: bool,
    over: bool,
    over_gizmo: bool,
    painting: bool,
)
    ensures
        ({
            let plan = s.planned(left, shown, over, over_gizmo, painting);
            let free = shown && !s.looking && !s.panning && !s.uv_panning;
            let pressed = left.pressed && over && !s.want_capture_mouse;
            &&& !free ==> plan.touch == Touch::Nothing && !plan.end && plan.painting == painting
            &&& free && pressed && !over_gizmo ==> plan.touch == Touch::Begin
            &&& free && pressed && over_gizmo ==> plan.touch == Touch::Choose
            &&& plan.touch == Touch::Begin ==> free && pressed && !over_gizmo
            &&& plan.touch == Touch::Choose ==> free && pressed && over_gizmo
            &&& plan.touch == Touch::GoOn ==> free && painting && left.down && over && !over_gizmo
                && !pressed
            &&& free && painting && left.down && over && !over_gizmo && !pressed ==> plan.touch
                == Touch::GoOn
            &&& free && left.down && !left.released ==> !plan.end && plan.painting == (painting
                || plan.touch == Touch::Begin)
            &&& free && (left.released || !left.down) ==> !plan.painting && plan.end == (painting
                || plan.touch == Touch::Begin)
        }),
{
}

/// The wheel works on the texture plane where the pointer is over it, else on the viewport where
/// it is over that, else on nothing; a wheel that did not turn works on nothing.
pub proof fn law_the_wheel_works_under_the_pointer(scroll_y: u32, over: Over)
    ensures
        scroll_y == 0 || scroll_y == 0x8000_0000 ==> zoomed(scroll_y, over) == Zoom::Nothing,
        zoomed(scroll_y, over) == Zoom::Uv ==> over.uv,
        zoomed(scroll_y, over) == Zoom::Viewport ==> over.viewport && !over.uv,
        crate::bits::is_less(0, scroll_y) || crate::bits::is_less(scroll_y, 0) ==> (zoomed(
            scroll_y,
            over,
        ) == Zoom::Nothing <==> !over.uv && !over.viewport),
{
}

/// The brush is shown only where it is asked for and off the gizmo. A painting tool and the
/// segment brush show a ring of the radius of the brush, if it has one; a click shows a cross
/// alone; a rectangle goes from where it began, and is a point before. A tool that adds and one
/// that takes away differ in their colour; taking away looks the same in both modes, and all
/// colours are seen through alike.
pub proof fn law_the_cursor_shows_the_tool(p: Painter, screen: Point, show: bool, over_gizmo: bool)
    ensures
        ({
            let c = p.shown_cursor(screen, show, over_gizmo);
            let ringed = p.mode == AppMode::Paint || p.seg_tool == SegTool::Brush;
            let tint = match c {
                Cursor::Hidden => Rgba { r: 0, g: 0, b: 0, a: 0 },
                Cursor::Frame { from, color } => color,
                Cursor::Ring { radius, ring, color } => color,
            };
            &&& (c is Hidden) <==> !show || over_gizmo
            &&& show && !over_gizmo && ringed ==> c is Ring && c->radius == p.brush.radius
                && c->ring == crate::bits::is_less(0x3727_c5ac, p.brush.radius)
            &&& show && !over_gizmo && !ringed && p.seg_tool == SegTool::Click ==> c is Ring
                && !c->ring && c->radius == 0
            &&& show && !over_gizmo && !ringed && p.seg_tool == SegTool::Rect ==> c is Frame
                && c->from == (match p.rect_start {
                Some(q) => q,
                None => screen,
            })
            &&& c !is Hidden ==> tint.a == 0x3f6b_851f
            &&& c !is Hidden && p.mode == AppMode::Paint && p.tool == PaintTool::Paint ==> tint.r
                == 0x3f80_0000 && tint.g == 0x3f80_0000 && tint.b == 0x3f80_0000
            &&& c !is Hidden && p.mode == AppMode::Segment && p.seg_op == SegOp::Select ==> tint.r
                == 0x3f80_0000 && tint.g == 0x3f6b_851f && tint.b == 0x3eb3_3333
            &&& c !is Hidden && (p.mode == AppMode::Paint && p.tool == PaintTool::Eraser || p.mode
                == AppMode::Segment && p.seg_op == SegOp::Deselect) ==> tint.r == 0x3f0c_cccd
                && tint.g == 0x3f40_0000 && tint.b == 0x3f80_0000
        }),
{
}

/// A stack that has to be put together again, an input that is not done with, a stroke or a moving
/// camera: each of them alone keeps the frames coming, and nothing else does.
pub proof fn law_work_keeps_frames_coming(
    p: Painter,
    s: Session,
    keep_ui: bool,
    needs_repaint: bool,
    i: int,
)
    ensures
        ({
            let busy = p.is_busy(s, keep_ui, needs_repaint);
            let dirty = 0 <= i < p.docs@.len() && p.docs@[i].composite_dirty;
            &&& keep_ui || needs_repaint || p.painting || p.snapping || s.looking || s.panning
                || s.uv_panning || p.needs_map_seed || dirty ==> busy
            &&& busy ==> keep_ui || needs_repaint || p.painting || p.snapping || s.looking
                || s.panning || s.uv_panning || p.needs_map_seed || exists|k: int|
                0 <= k < p.docs@.len() && (#[trigger] p.docs@[k]).composite_dirty
        }),
{
}

/// The node that a mesh is marked on is one of those given that draws it, and none before it does.
pub proof fn law_the_first_node_carries(scene: Scene, nodes: Seq<Handle>, mesh: Handle) -> (i: int)
    ensures
        match carrier(scene, nodes, mesh) {
            Some(h) => {
                &&& 0 <= i < nodes.len()
                &&& nodes[i] == h
                &&& scene.drawn(h) is Some && scene.drawn(h)->0.handle == mesh
                &&& forall|k: int|
                    0 <= k < i ==> !(scene.drawn(#[trigger] nodes[k]) is Some && scene.drawn(
                        nodes[k],
                    )->0.handle == mesh)
            },
            None => forall|k: int|
                0 <= k < nodes.len() ==> !(scene.drawn(#[trigger] nodes[k]) is Some && scene.drawn(
                    nodes[k],
                )->0.handle == mesh),
        },
    decreases nodes.len(),
{
    if nodes.len() == 0 {
        0
    } else if scene.drawn(nodes[0]) is Some && scene.drawn(nodes[0])->0.handle == mesh {
        0
    } else {
        let rest = nodes.skip(1);
        let j = law_the_first_node_carries(scene, rest, mesh);
        assert forall|k: int|
            0 <= k < nodes.len() && (carrier(scene, nodes, mesh) is None || k < j + 1) implies !(
        scene.drawn(#[trigger] nodes[k]) is Some && scene.drawn(nodes[k])->0.handle == mesh) by {
            if k > 0 {
                assert(rest[k - 1] == nodes[k]);
            }
        }
        j + 1
    }
}

/// A face that is marked has a label, the colour of the segment with that label, and stands in the
/// mesh that its node draws.
pub proof fn law_marks_have_the_colour_of_their_segment(p: Painter, m: Mark)
    requires
        p.marks(m),
    ensures
        ({
            let labels = p.segmentation.labels();
            &&& labels.contains_key(m.mesh) && 0 <= m.tri < labels[m.mesh].len()
            &&& labels[m.mesh][m.tri as int] != 0
            &&& exists|i: int|
                0 <= i < p.segmentation.segments@.len() && (#[trigger] p.segmentation.segments@[i]).id
                    == labels[m.mesh][m.tri as int] && p.segmentation.segments@[i].color == m.color
            &&& p.paintable@.contains(m.node)
            &&& p.scene.drawn(m.node) is Some && p.scene.drawn(m.node)->0.handle == m.mesh
        }),
{
    let i = law_the_first_node_carries(p.scene, p.paintable@, m.mesh);
    assert(p.paintable@[i] == m.node);
    let label = crate::segment::label_in(p.segmentation.labels(), m.mesh, m.tri as int);
    let j = crate::segment::law_colours_go_by_id(p.segmentation.segments@, label);
    assert(p.segmentation.segments@[j].id == label);
}

} // verus!
