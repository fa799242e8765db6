//! The panels: which rows they show, and what an edit of a row does.

use vstd::prelude::*;
use vstd::string::StringExecFns;

use crate::actions::Actions;
use crate::bits::{Rgba, ONE};
use crate::brush_alpha::{ALPHA_TEX_BASE, NRM_TEX_BASE};
use crate::paint::{Brush, LayerKind, PaintDocument, PaintMap, PaintTarget, PaintTool};
use crate::painter::DebugView;
use crate::scene::{Handle, Scene};
use crate::segment::{AppMode, SegOp, SegTool, Segmentation};
use crate::text::decimal_string;

verus! {

/// Position of a mode on the mode switch.
pub open spec fn mode_place(m: AppMode) -> int {
    match m {
        AppMode::Paint => 0,
        AppMode::Segment => 1,
    }
}

/// Position of a mode on the mode switch.
pub fn mode_index(m: AppMode) -> (i: usize)
    ensures
        i == mode_place(m),
        AppMode::ALL@[i as int] == m,
{
    match m {
        AppMode::Paint => 0,
        AppMode::Segment => 1,
    }
}

/// Position of a tool on the tool switch.
pub fn seg_tool_index(t: SegTool) -> (i: usize)
    ensures
        i < 3,
        SegTool::ALL@[i as int] == t,
{
    match t {
        SegTool::Click => 0,
        SegTool::Brush => 1,
        SegTool::Rect => 2,
    }
}

/// Position of an action on the action switch.
pub fn seg_op_index(o: SegOp) -> (i: usize)
    ensures
        i < 2,
        SegOp::ALL@[i as int] == o,
{
    match o {
        SegOp::Select => 0,
        SegOp::Deselect => 1,
    }
}

/// Position of a tool on the tool switch.
pub fn tool_index(t: PaintTool) -> (i: usize)
    ensures
        i < 2,
        PaintTool::ALL@[i as int] == t,
{
    match t {
        PaintTool::Paint => 0,
        PaintTool::Eraser => 1,
    }
}

impl DebugView {
    /// The views that can be chosen while painting.
    pub const CHOICES: [DebugView; 5] = [
        DebugView::Final,
        DebugView::Albedo,
        DebugView::Metallic,
        DebugView::Roughness,
        DebugView::Normals,
    ];
}

/// Position of a view on the view switch; one that is not there counts as the first.
pub fn view_index(v: DebugView) -> (i: usize)
    ensures
        i < 5,
        v == DebugView::Wireframe ==> i == 0,
        v != DebugView::Wireframe ==> DebugView::CHOICES@[i as int] == v,
{
    match v {
        DebugView::Final => 0,
        DebugView::Albedo => 1,
        DebugView::Metallic => 2,
        DebugView::Roughness => 3,
        DebugView::Normals => 4,
        DebugView::Wireframe => 0,
    }
}

/// What the left button does.
pub open spec fn hint_text(a: Actions, target: PaintTarget) -> Seq<char> {
    if a.mode == AppMode::Segment {
        match (a.seg_tool, a.seg_op) {
            (SegTool::Click, SegOp::Select) => "click faces"@,
            (SegTool::Click, SegOp::Deselect) => "click to unassign"@,
            (SegTool::Brush, SegOp::Select) => "brush faces"@,
            (SegTool::Brush, SegOp::Deselect) => "brush unassign"@,
            (SegTool::Rect, SegOp::Select) => "rect faces"@,
            (SegTool::Rect, SegOp::Deselect) => "rect unassign"@,
        }
    } else if target == PaintTarget::Mask {
        "paint mask"@
    } else if a.tool == PaintTool::Paint {
        "paint"@
    } else {
        "erase"@
    }
}

/// What the left button does.
pub fn tool_hint(a: &Actions, target: PaintTarget) -> (s: &'static str)
    ensures
        s@ == hint_text(*a, target),
{
    if a.mode == AppMode::Segment {
        match (a.seg_tool, a.seg_op) {
            (SegTool::Click, SegOp::Select) => "click faces",
            (SegTool::Click, SegOp::Deselect) => "click to unassign",
            (SegTool::Brush, SegOp::Select) => "brush faces",
            (SegTool::Brush, SegOp::Deselect) => "brush unassign",
            (SegTool::Rect, SegOp::Select) => "rect faces",
            (SegTool::Rect, SegOp::Deselect) => "rect unassign",
        }
    } else {
        match (a.tool, target) {
            (_, PaintTarget::Mask) => "paint mask",
            (PaintTool::Paint, PaintTarget::Content) => "paint",
            (PaintTool::Eraser, PaintTarget::Content) => "erase",
        }
    }
}

/// The line under the mode switch.
pub fn hint_line(a: &Actions, target: PaintTarget) -> (s: String)
    ensures
        s@ == "LMB "@ + hint_text(*a, target) + " · MMB pan · RMB orbit · wheel zoom"@,
{
    crate::text::concat3("LMB ", tool_hint(a, target), " · MMB pan · RMB orbit · wheel zoom")
}

/// An edit of the viewport panel.
#[derive(Clone, Copy, Debug, PartialEq, Eq, Structural)]
pub enum ViewEdit {
    Mode(usize),
    View(usize),
}

/// Takes an edit of the viewport panel down.
pub fn edit_view(a: &mut Actions, e: ViewEdit)
    requires
        match e {
            ViewEdit::Mode(i) => i < 2,
            ViewEdit::View(i) => i < 5,
        },
    ensures
        *final(a) == match e {
            ViewEdit::Mode(i) => Actions {
                mode: AppMode::ALL@[i as int],
                keep: true,
                ..*old(a)
            },
            ViewEdit::View(i) => Actions {
                debug_view: DebugView::CHOICES@[i as int],
                keep: true,
                ..*old(a)
            },
        },
{
    match e {
        ViewEdit::Mode(i) => a.mode = AppMode::ALL[i],
        ViewEdit::View(i) => a.debug_view = DebugView::CHOICES[i],
    }
    a.keep = true;
}

/// The panel of stamps shows normals: on the normal map, unless a mask is being painted.
pub open spec fn shows_normals(map: PaintMap, target: PaintTarget) -> bool {
    map == PaintMap::Normal && target != PaintTarget::Mask
}

/// Whether the panel of stamps shows normals.
pub fn normals_shown(map: PaintMap, target: PaintTarget) -> (r: bool)
    ensures
        r == shows_normals(map, target),
{
    map == PaintMap::Normal && target != PaintTarget::Mask
}

/// A picture in the panel of stamps.
#[derive(Clone, Copy, Debug, PartialEq, Eq, Structural)]
pub struct StampCell {
    /// The texture of the picture.
    pub slot: u32,
    pub selected: bool,
}

/// The pictures in the panel of stamps.
pub open spec fn stamp_cells(normals: bool, count: nat, selected: usize) -> Seq<StampCell> {
    Seq::new(
        count,
        |i: int|
            StampCell {
                slot: (if normals {
                    NRM_TEX_BASE
                } else {
                    ALPHA_TEX_BASE
                } + i) as u32,
                selected: i == selected,
            },
    )
}

/// The pictures in the panel of stamps.
pub fn alphas_panel(a: &Actions, normals: bool, count: usize) -> (cells: Vec<StampCell>)
    requires
        count + NRM_TEX_BASE <= u32::MAX,
    ensures
        cells@ == stamp_cells(
            normals,
            count as nat,
            if normals {
                a.active_nrm
            } else {
                a.active_alpha
            },
        ),
{
    let base: u32 = if normals {
        NRM_TEX_BASE
    } else {
        ALPHA_TEX_BASE
    };
    let selected: usize = if normals {
        a.active_nrm
    } else {
        a.active_alpha
    };
    let mut cells: Vec<StampCell> = Vec::new();
    let mut i: usize = 0;
    while i < count
        invariant
            i <= count,
            count + NRM_TEX_BASE <= u32::MAX,
            base == if normals {
                NRM_TEX_BASE
            } else {
                ALPHA_TEX_BASE
            },
            cells@ =~= stamp_cells(normals, count as nat, selected).take(i as int),
        decreases count - i,
    {
        cells.push(StampCell { slot: base + i as u32, selected: i == selected });
        i += 1;
    }
    assert(cells@ =~= stamp_cells(normals, count as nat, selected));
    cells
}

/// Takes a click on a stamp down.
pub fn pick_stamp(a: &mut Actions, normals: bool, i: usize)
    ensures
        *final(a) == if normals {
            Actions { active_nrm: i, keep: true, ..*old(a) }
        } else {
            Actions { active_alpha: i, keep: true, ..*old(a) }
        },
{
    if normals {
        a.active_nrm = i;
    } else {
        a.active_alpha = i;
    }
    a.keep = true;
}

/// A line of text in the brush panel.
#[derive(Clone, Copy, Debug, PartialEq, Eq, Structural)]
pub enum BrushText {
    Title,
    SelectTool,
    Action,
    SegRadius,
    Mesh,
    Tool,
    FillColor,
    FillFlat,
    FillValue,
    MaskBrush,
    NormalStamp,
    Tint,
    Radius,
    Hardness,
    Opacity,
}

impl BrushText {
    /// The words.
    pub open spec fn words(self) -> Seq<char> {
        match self {
            BrushText::Title => "Brush"@,
            BrushText::SelectTool => "Select tool"@,
            BrushText::Action => "Action"@,
            BrushText::SegRadius => "Radius — world-space brush"@,
            BrushText::Mesh => "Mesh"@,
            BrushText::Tool => "Tool"@,
            BrushText::FillColor => "Fill color"@,
            BrushText::FillFlat => "Fill — flat normal (128, 128, 255)"@,
            BrushText::FillValue => "Fill value"@,
            BrushText::MaskBrush => "Brush — luminance on mask (white pass, black block)"@,
            BrushText::NormalStamp => "Normal stamp — pick from the left panel"@,
            BrushText::Tint => "Color — stamp tint (MR maps use luminance)"@,
            BrushText::Radius => "Radius — world-space stamp size"@,
            BrushText::Hardness => "Hardness — 0 soft falloff · 1 hard edge"@,
            BrushText::Opacity => "Opacity — stroke strength"@,
        }
    }

    /// The words.
    pub fn label(self) -> (s: &'static str)
        ensures
            s@ == self.words(),
    {
        match self {
            BrushText::Title => "Brush",
            BrushText::SelectTool => "Select tool",
            BrushText::Action => "Action",
            BrushText::SegRadius => "Radius — world-space brush",
            BrushText::Mesh => "Mesh",
            BrushText::Tool => "Tool",
            BrushText::FillColor => "Fill color",
            BrushText::FillFlat => "Fill — flat normal (128, 128, 255)",
            BrushText::FillValue => "Fill value",
            BrushText::MaskBrush => "Brush — luminance on mask (white pass, black block)",
            BrushText::NormalStamp => "Normal stamp — pick from the left panel",
            BrushText::Tint => "Color — stamp tint (MR maps use luminance)",
            BrushText::Radius => "Radius — world-space stamp size",
            BrushText::Hardness => "Hardness — 0 soft falloff · 1 hard edge",
            BrushText::Opacity => "Opacity — stroke strength",
        }
    }
}

/// A row of the brush panel.
#[derive(Clone, Copy, Debug, PartialEq, Eq, Structural)]
pub enum BrushRow {
    Separator,
    Text(BrushText),
    SegTools { tool: SegTool },
    SegOps { op: SegOp },
    Through { on: bool },
    Tools { brush: PaintTool },
    /// The colour of the active fill layer.
    FillColor { color: Rgba },
    /// The brightness of the active fill layer.
    FillValue { color: Rgba },
    Color { color: Rgba },
    Radius { value: u32 },
    Hardness { value: u32 },
    Opacity { value: u32 },
    /// The button that opens a model.
    Open,
    /// The switch between sphere, cube and, if there is one, model.
    Shapes { selected: usize, count: usize },
    ModelName,
}

/// What the brush panel depends on.
#[derive(Clone, Copy, Debug, PartialEq, Eq, Structural)]
pub struct BrushState {
    pub actions: Actions,
    pub brush: Brush,
    pub target: PaintTarget,
    /// The colour of the active layer, if it is a fill layer.
    pub fill: Option<Rgba>,
    pub has_model: bool,
    /// The model has a name.
    pub named: bool,
}

/// The rows about the mesh, at the end of the panel.
pub open spec fn mesh_rows(s: BrushState) -> Seq<BrushRow> {
    let count: usize = if s.has_model {
        3
    } else {
        2
    };
    seq![
        BrushRow::Separator,
        BrushRow::Text(BrushText::Mesh),
        BrushRow::Open,
        BrushRow::Shapes {
            selected: if s.actions.shape < count {
                s.actions.shape
            } else {
                (count - 1) as usize
            },
            count,
        },
    ] + if s.has_model && s.named {
        seq![BrushRow::ModelName]
    } else {
        Seq::empty()
    }
}

/// The rows of the panel when segments are worked on.
pub open spec fn segment_rows(s: BrushState) -> Seq<BrushRow> {
    seq![
        BrushRow::Text(BrushText::Title),
        BrushRow::Separator,
        BrushRow::Text(BrushText::SelectTool),
        BrushRow::SegTools { tool: s.actions.seg_tool },
        BrushRow::Text(BrushText::Action),
        BrushRow::SegOps { op: s.actions.seg_op },
    ] + if s.actions.seg_tool == SegTool::Rect {
        seq![BrushRow::Through { on: s.actions.rect_through }]
    } else if s.actions.seg_tool == SegTool::Brush {
        seq![
            BrushRow::Text(BrushText::SegRadius),
            BrushRow::Radius { value: s.brush.radius },
        ]
    } else {
        Seq::empty()
    } + mesh_rows(s)
}

/// The rows about the active fill layer: a colour, a flat normal or a brightness, after the map.
pub open spec fn fill_rows(s: BrushState) -> Seq<BrushRow> {
    match s.fill {
        Some(color) => match s.actions.paint_map {
            PaintMap::Albedo => seq![
                BrushRow::Text(BrushText::FillColor),
                BrushRow::FillColor { color },
            ],
            PaintMap::Normal => seq![BrushRow::Text(BrushText::FillFlat)],
            _ => seq![BrushRow::Text(BrushText::FillValue), BrushRow::FillValue { color }],
        },
        None => Seq::empty(),
    }
}

/// What the colour of the brush is for.
pub open spec fn color_hint(s: BrushState) -> BrushText {
    if s.target == PaintTarget::Mask {
        BrushText::MaskBrush
    } else if s.actions.paint_map == PaintMap::Normal {
        BrushText::NormalStamp
    } else if s.fill is Some {
        BrushText::MaskBrush
    } else {
        BrushText::Tint
    }
}

/// The colour of the brush matters.
pub open spec fn shows_color(s: BrushState) -> bool {
    s.actions.paint_map != PaintMap::Normal && (s.actions.tool == PaintTool::Paint || s.target
        == PaintTarget::Mask || s.fill is Some)
}

/// The rows of the panel when layers are painted.
pub open spec fn paint_rows(s: BrushState) -> Seq<BrushRow> {
    seq![
        BrushRow::Text(BrushText::Title),
        BrushRow::Separator,
        BrushRow::Text(BrushText::Tool),
        BrushRow::Tools { brush: s.actions.tool },
        BrushRow::Separator,
    ] + fill_rows(s) + seq![BrushRow::Text(color_hint(s))] + if shows_color(s) {
        seq![BrushRow::Color { color: s.brush.color }]
    } else {
        Seq::empty()
    } + seq![
        BrushRow::Text(BrushText::Radius),
        BrushRow::Radius { value: s.brush.radius },
        BrushRow::Text(BrushText::Hardness),
        BrushRow::Hardness { value: s.brush.hardness },
        BrushRow::Text(BrushText::Opacity),
        BrushRow::Opacity { value: s.brush.opacity },
    ] + mesh_rows(s)
}

/// The rows of the brush panel.
pub open spec fn brush_rows(s: BrushState) -> Seq<BrushRow> {
    if s.actions.mode == AppMode::Segment {
        segment_rows(s)
    } else {
        paint_rows(s)
    }
}

fn push_mesh_rows(s: &BrushState, rows: &mut Vec<BrushRow>)
    ensures
        final(rows)@ == old(rows)@ + mesh_rows(*s),
{
    let count: usize = if s.has_model {
        3
    } else {
        2
    };
    rows.push(BrushRow::Separator);
    rows.push(BrushRow::Text(BrushText::Mesh));
    rows.push(BrushRow::Open);
    let selected: usize = if s.actions.shape < count {
        s.actions.shape
    } else {
        count - 1
    };
    rows.push(BrushRow::Shapes { selected, count });
    if s.has_model && s.named {
        rows.push(BrushRow::ModelName);
    }
    assert(rows@ =~= old(rows)@ + mesh_rows(*s));
}

fn push_fill_rows(s: &BrushState, rows: &mut Vec<BrushRow>)
    ensures
        final(rows)@ == old(rows)@ + fill_rows(*s),
{
    match s.fill {
        Some(color) => match s.actions.paint_map {
            PaintMap::Albedo => {
                rows.push(BrushRow::Text(BrushText::FillColor));
                rows.push(BrushRow::FillColor { color });
            },
            PaintMap::Normal => {
                rows.push(BrushRow::Text(BrushText::FillFlat));
            },
            _ => {
                rows.push(BrushRow::Text(BrushText::FillValue));
                rows.push(BrushRow::FillValue { color });
            },
        },
        None => {},
    }
    assert(rows@ =~= old(rows)@ + fill_rows(*s));
}

/// The rows of the brush panel.
pub fn brush_panel(s: &BrushState) -> (rows: Vec<BrushRow>)
    ensures
        rows@ == brush_rows(*s),
{
    let mut rows: Vec<BrushRow> = Vec::new();
    rows.push(BrushRow::Text(BrushText::Title));
    rows.push(BrushRow::Separator);
    if s.actions.mode == AppMode::Segment {
        rows.push(BrushRow::Text(BrushText::SelectTool));
        rows.push(BrushRow::SegTools { tool: s.actions.seg_tool });
        rows.push(BrushRow::Text(BrushText::Action));
        rows.push(BrushRow::SegOps { op: s.actions.seg_op });
        if s.actions.seg_tool == SegTool::Rect {
            rows.push(BrushRow::Through { on: s.actions.rect_through });
        }
        if s.actions.seg_tool == SegTool::Brush {
            rows.push(BrushRow::Text(BrushText::SegRadius));
            rows.push(BrushRow::Radius { value: s.brush.radius });
        }
        push_mesh_rows(s, &mut rows);
        assert(rows@ =~= segment_rows(*s));
        return rows;
    }
    rows.push(BrushRow::Text(BrushText::Tool));
    rows.push(BrushRow::Tools { brush: s.actions.tool });
    rows.push(BrushRow::Separator);
    push_fill_rows(s, &mut rows);
    let targeting_mask = s.target == PaintTarget::Mask;
    let fill_content = s.fill.is_some();
    let hint = if targeting_mask {
        BrushText::MaskBrush
    } else if s.actions.paint_map == PaintMap::Normal {
        BrushText::NormalStamp
    } else if fill_content {
        BrushText::MaskBrush
    } else {
        BrushText::Tint
    };
    rows.push(BrushRow::Text(hint));
    if s.actions.paint_map != PaintMap::Normal && (s.actions.tool == PaintTool::Paint
        || targeting_mask || fill_content) {
        rows.push(BrushRow::Color { color: s.brush.color });
    }
    rows.push(BrushRow::Text(BrushText::Radius));
    rows.push(BrushRow::Radius { value: s.brush.radius });
    rows.push(BrushRow::Text(BrushText::Hardness));
    rows.push(BrushRow::Hardness { value: s.brush.hardness });
    rows.push(BrushRow::Text(BrushText::Opacity));
    rows.push(BrushRow::Opacity { value: s.brush.opacity });
    push_mesh_rows(s, &mut rows);
    assert(rows@ =~= paint_rows(*s));
    rows
}

/// What the brush panel depends on, with what the stacks hold.
pub fn brush_state(
    a: &Actions,
    docs: &Vec<PaintDocument>,
    brush: &Brush,
    has_model: bool,
    named: bool,
) -> (s: BrushState)
    requires
        docs@.len() == 4,
    ensures
        s.actions == *a,
        s.brush == *brush,
        s.has_model == has_model,
        s.named == named,
        s.target == docs@[a.paint_map.position()].paint_target,
        s.fill == ({
            let layers = docs@[a.paint_map.position()].layers@;
            if a.active < layers.len() && layers[a.active as int].kind == LayerKind::Fill {
                Some(layers[a.active as int].fill)
            } else {
                None
            }
        }),
{
    let doc = &docs[a.paint_map.index()];
    let fill: Option<Rgba> = if a.active < doc.layers.len() && doc.layers[a.active].kind
        == LayerKind::Fill {
        Some(doc.layers[a.active].fill)
    } else {
        None
    };
    BrushState { actions: *a, brush: *brush, target: doc.paint_target, fill, has_model, named }
}

/// An edit of the brush panel.
#[derive(Clone, Copy, Debug, PartialEq, Eq, Structural)]
pub enum BrushEdit {
    SegTool(usize),
    SegOp(usize),
    Through(bool),
    Tool(usize),
    FillColor(Rgba),
    FillValue(u32),
    Color(Rgba),
    Radius(u32),
    Hardness(u32),
    Opacity(u32),
    Open,
    Shape(usize),
}

/// The option of an edit exists.
pub open spec fn is_brush_option(e: BrushEdit) -> bool {
    match e {
        BrushEdit::SegTool(i) => i < 3,
        BrushEdit::SegOp(i) => i < 2,
        BrushEdit::Tool(i) => i < 2,
        _ => true,
    }
}

/// The actions after an edit of the brush panel. Moving a slider of the brush asks for nothing.
pub open spec fn brush_edited(a: Actions, e: BrushEdit, has_fill: bool) -> Actions {
    match e {
        BrushEdit::SegTool(i) => Actions { seg_tool: SegTool::ALL@[i as int], keep: true, ..a },
        BrushEdit::SegOp(i) => Actions { seg_op: SegOp::ALL@[i as int], keep: true, ..a },
        BrushEdit::Through(on) => Actions { rect_through: on, keep: true, ..a },
        BrushEdit::Tool(i) => Actions { tool: PaintTool::ALL@[i as int], keep: true, ..a },
        BrushEdit::FillColor(_) => if has_fill {
            Actions { dirty_layers: true, keep: true, ..a }
        } else {
            a
        },
        BrushEdit::FillValue(_) => if has_fill {
            Actions { dirty_layers: true, keep: true, ..a }
        } else {
            a
        },
        BrushEdit::Open => Actions { open_model: true, ..a },
        BrushEdit::Shape(i) => Actions { shape: i, keep: true, ..a },
        _ => a,
    }
}

/// The brush after an edit of the brush panel.
pub open spec fn brush_after(b: Brush, e: BrushEdit) -> Brush {
    match e {
        BrushEdit::Color(c) => Brush { color: c, ..b },
        BrushEdit::Radius(v) => Brush { radius: v, ..b },
        BrushEdit::Hardness(v) => Brush { hardness: v, ..b },
        BrushEdit::Opacity(v) => Brush { opacity: v, ..b },
        _ => b,
    }
}

/// The colour that an edit gives a fill layer.
pub open spec fn new_fill(e: BrushEdit) -> Option<Rgba> {
    match e {
        BrushEdit::FillColor(c) => Some(c),
        BrushEdit::FillValue(v) => Some(Rgba { r: v, g: v, b: v, a: ONE }),
        _ => None,
    }
}

/// The stacks with another fill colour on a layer of the current map.
pub open spec fn refilled(
    before: Seq<PaintDocument>,
    after: Seq<PaintDocument>,
    map: PaintMap,
    i: int,
    color: Rgba,
) -> bool {
    let at = map.position();
    let d0 = before[at];
    let d1 = after[at];
    &&& after == before.update(at, d1)
    &&& d1 == (PaintDocument { layers: d1.layers, ..d0 })
    &&& d1.layers@ == d0.layers@.update(
        i,
        crate::paint::Layer { fill: color, ..d0.layers@[i] },
    )
}

/// Takes an edit of the brush panel down. The fill colour goes straight to the active layer.
pub fn edit_brush(a: &mut Actions, docs: &mut Vec<PaintDocument>, brush: &mut Brush, e: BrushEdit)
    requires
        old(docs)@.len() == 4,
        is_brush_option(e),
    ensures
        *final(a) == brush_edited(
            *old(a),
            e,
            old(a).active < old(docs)@[old(a).paint_map.position()].layers@.len(),
        ),
        *final(brush) == brush_after(*old(brush), e),
        match new_fill(e) {
            Some(color) => if old(a).active < old(
                docs,
            )@[old(a).paint_map.position()].layers@.len() {
                refilled(
                    old(docs)@,
                    final(docs)@,
                    old(a).paint_map,
                    old(a).active as int,
                    color,
                )
            } else {
                final(docs)@ == old(docs)@
            },
            None => final(docs)@ == old(docs)@,
        },
        forall|ids: Seq<u32>|
            crate::painter::are_in_order(old(docs)@, ids)
                ==> #[trigger] crate::painter::are_in_order(final(docs)@, ids),
{
    match fill_of(e) {
        Some(color) => refill(a, docs, color),
        None => {
            edit_choice(a, e);
            edit_values(brush, e);
        },
    }
}

fn fill_of(e: BrushEdit) -> (c: Option<Rgba>)
    ensures
        c == new_fill(e),
{
    match e {
        BrushEdit::FillColor(c) => Some(c),
        BrushEdit::FillValue(v) => Some(Rgba::grey(v)),
        _ => None,
    }
}

fn edit_values(brush: &mut Brush, e: BrushEdit)
    ensures
        *final(brush) == brush_after(*old(brush), e),
{
    match e {
        BrushEdit::Color(c) => brush.color = c,
        BrushEdit::Radius(v) => brush.radius = v,
        BrushEdit::Hardness(v) => brush.hardness = v,
        BrushEdit::Opacity(v) => brush.opacity = v,
        _ => {},
    }
}

fn edit_choice(a: &mut Actions, e: BrushEdit)
    requires
        is_brush_option(e),
    ensures
        *final(a) == brush_edited(*old(a), e, false),
{
    *a = match e {
        BrushEdit::SegTool(i) => Actions { seg_tool: SegTool::ALL[i], keep: true, ..*a },
        BrushEdit::SegOp(i) => Actions { seg_op: SegOp::ALL[i], keep: true, ..*a },
        BrushEdit::Through(on) => Actions { rect_through: on, keep: true, ..*a },
        BrushEdit::Tool(i) => Actions { tool: PaintTool::ALL[i], keep: true, ..*a },
        BrushEdit::Open => Actions { open_model: true, ..*a },
        BrushEdit::Shape(i) => Actions { shape: i, keep: true, ..*a },
        _ => *a,
    };
}

fn refill(a: &mut Actions, docs: &mut Vec<PaintDocument>, color: Rgba)
    requires
        old(docs)@.len() == 4,
    ensures
        old(a).active < old(docs)@[old(a).paint_map.position()].layers@.len() ==> {
            &&& *final(a) == (Actions { dirty_layers: true, keep: true, ..*old(a) })
            &&& refilled(
                old(docs)@,
                final(docs)@,
                old(a).paint_map,
                old(a).active as int,
                color,
            )
        },
        old(a).active >= old(docs)@[old(a).paint_map.position()].layers@.len() ==> *final(a) == *old(
            a,
        ) && final(docs)@ == old(docs)@,
{
    let at: usize = a.paint_map.index();
    let i: usize = a.active;
    if i < docs[at].layers.len() {
        docs[at].layers[i].fill = color;
        a.dirty_layers = true;
        a.keep = true;
    }
}

/// What can be edited about the filling of a layer.
#[derive(Clone, Copy, Debug, PartialEq, Eq, Structural)]
pub enum FillEdit {
    /// Nothing: the layer is painted.
    Nothing,
    Color(Rgba),
    /// Nothing, as normals are filled flat.
    Flat,
    /// A brightness.
    Value(Rgba),
}

/// A row of the layers panel.
#[derive(Clone, Copy, Debug, PartialEq, Eq, Structural)]
pub struct LayerRow {
    pub index: usize,
    pub active: bool,
    pub visible: bool,
    /// The mask of the layer is being painted.
    pub mask_selected: bool,
    pub fill: FillEdit,
    pub opacity: u32,
}

/// What can be edited about the filling of a layer.
pub open spec fn fill_edit(l: crate::paint::Layer, map: PaintMap) -> FillEdit {
    if l.kind == LayerKind::Paint {
        FillEdit::Nothing
    } else {
        match map {
            PaintMap::Albedo => FillEdit::Color(l.fill),
            PaintMap::Normal => FillEdit::Flat,
            _ => FillEdit::Value(l.fill),
        }
    }
}

/// The row of a layer.
pub open spec fn layer_row(a: Actions, d: PaintDocument, i: int) -> LayerRow {
    let l = d.layers@[i];
    LayerRow {
        index: i as usize,
        active: i == a.active,
        visible: l.visible,
        mask_selected: i == a.active && d.paint_target == PaintTarget::Mask && l.mask is Some,
        fill: fill_edit(l, a.paint_map),
        opacity: l.opacity,
    }
}

/// The rows of the layers panel, the top layer first.
pub fn layers_panel(a: &Actions, docs: &Vec<PaintDocument>) -> (rows: Vec<LayerRow>)
    requires
        docs@.len() == 4,
    ensures
        ({
            let d = docs@[a.paint_map.position()];
            &&& rows@.len() == d.layers@.len()
            &&& forall|k: int|
                0 <= k < rows@.len() ==> #[trigger] rows@[k] == layer_row(
                    *a,
                    d,
                    d.layers@.len() - 1 - k,
                )
        }),
{
    let d = &docs[a.paint_map.index()];
    let mut rows: Vec<LayerRow> = Vec::new();
    let mut left: usize = d.layers.len();
    while left > 0
        invariant
            left <= d.layers@.len(),
            rows@.len() == d.layers@.len() - left,
            forall|k: int|
                0 <= k < rows@.len() ==> #[trigger] rows@[k] == layer_row(
                    *a,
                    *d,
                    d.layers@.len() - 1 - k,
                ),
        decreases left,
    {
        left -= 1;
        let l = &d.layers[left];
        let active = left == a.active;
        let fill = match l.kind {
            LayerKind::Paint => FillEdit::Nothing,
            LayerKind::Fill => match a.paint_map {
                PaintMap::Albedo => FillEdit::Color(l.fill),
                PaintMap::Normal => FillEdit::Flat,
                _ => FillEdit::Value(l.fill),
            },
        };
        rows.push(
            LayerRow {
                index: left,
                active,
                visible: l.visible,
                mask_selected: active && d.paint_target == PaintTarget::Mask && l.mask.is_some(),
                fill,
                opacity: l.opacity,
            },
        );
    }
    rows
}

/// An edit of the layers panel.
#[derive(Clone, Copy, Debug, PartialEq, Eq, Structural)]
pub enum LayerEdit {
    /// Another map.
    Channel(usize),
    Add,
    Fill,
    Delete,
    Clear,
    Up,
    Down,
    /// The eye of a layer.
    Eye(usize),
    /// The pencil of a layer, which selects its mask.
    Mask(usize),
    FillColor(usize, Rgba),
    FillValue(usize, u32),
    Opacity(usize, u32),
    /// The layer itself.
    Select(usize),
}

/// The layer of an edit exists, or the map.
pub open spec fn is_layer_option(e: LayerEdit, a: Actions, docs: Seq<PaintDocument>) -> bool {
    let n = docs[a.paint_map.position()].layers@.len();
    match e {
        LayerEdit::Channel(i) => i < 4,
        LayerEdit::Eye(i) => i < n,
        LayerEdit::FillColor(i, _) => i < n,
        LayerEdit::FillValue(i, _) => i < n,
        LayerEdit::Opacity(i, _) => i < n,
        _ => true,
    }
}

/// The actions after an edit of the layers panel.
pub open spec fn layer_edited(a: Actions, e: LayerEdit, docs: Seq<PaintDocument>) -> Actions {
    match e {
        LayerEdit::Channel(i) => Actions {
            paint_map: PaintMap::ALL@[i as int],
            active: docs[i as int].active,
            keep: true,
            ..a
        },
        LayerEdit::Add => Actions { add_layer: true, ..a },
        LayerEdit::Fill => Actions { add_fill: true, ..a },
        LayerEdit::Delete => Actions { del_layer: true, ..a },
        LayerEdit::Clear => Actions { clear_layer: true, ..a },
        LayerEdit::Up => Actions { move_up: true, ..a },
        LayerEdit::Down => Actions { move_down: true, ..a },
        LayerEdit::Mask(i) => Actions { mask_click: Some(i), keep: true, ..a },
        LayerEdit::Select(i) => Actions { active: i, content_click: Some(i), keep: true, ..a },
        _ => Actions { dirty_layers: true, keep: true, ..a },
    }
}

/// The layer after an edit that goes straight to it.
pub open spec fn layer_after(l: crate::paint::Layer, e: LayerEdit) -> crate::paint::Layer {
    match e {
        LayerEdit::Eye(_) => crate::paint::Layer { visible: !l.visible, ..l },
        LayerEdit::FillColor(_, c) => crate::paint::Layer { fill: c, ..l },
        LayerEdit::FillValue(_, v) => crate::paint::Layer {
            fill: Rgba { r: v, g: v, b: v, a: ONE },
            ..l
        },
        LayerEdit::Opacity(_, v) => crate::paint::Layer { opacity: v, ..l },
        _ => l,
    }
}

/// The layer that an edit goes straight to.
pub open spec fn edited_layer(e: LayerEdit) -> Option<usize> {
    match e {
        LayerEdit::Eye(i) => Some(i),
        LayerEdit::FillColor(i, _) => Some(i),
        LayerEdit::FillValue(i, _) => Some(i),
        LayerEdit::Opacity(i, _) => Some(i),
        _ => None,
    }
}

/// The stacks after an edit that goes straight to a layer.
pub open spec fn docs_edited(
    before: Seq<PaintDocument>,
    after: Seq<PaintDocument>,
    map: PaintMap,
    e: LayerEdit,
) -> bool {
    match edited_layer(e) {
        Some(i) => {
            let at = map.position();
            let d0 = before[at];
            let d1 = after[at];
            &&& after == before.update(at, d1)
            &&& d1 == (PaintDocument { layers: d1.layers, ..d0 })
            &&& d1.layers@ == d0.layers@.update(
                i as int,
                layer_after(d0.layers@[i as int], e),
            )
        },
        None => after == before,
    }
}

/// Panel edits of layers keep the stacks in order, with their textures for every tile.
pub proof fn law_layer_edits_keep_the_order(
    before: Seq<PaintDocument>,
    after: Seq<PaintDocument>,
    map: PaintMap,
    e: LayerEdit,
    ids: Seq<u32>,
)
    requires
        before.len() == 4,
        docs_edited(before, after, map, e),
        match edited_layer(e) {
            Some(i) => i < before[map.position()].layers@.len(),
            None => true,
        },
        crate::painter::are_in_order(before, ids),
    ensures
        crate::painter::are_in_order(after, ids),
{
    match edited_layer(e) {
        Some(i) => {
            let at = map.position();
            let d0 = before[at];
            let d1 = after[at];
            assert(d0.wf() && d0.is_tiled(ids));
            let l = d0.layers@[i as int];
            assert(l.is_tiled(ids));
            assert(layer_after(l, e).is_tiled(ids));
            assert(d1.is_tiled(ids));
        },
        None => {},
    }
}

/// Takes an edit of the layers panel down. The eye, the filling and the opacity go straight to
/// the layer.
pub fn edit_layers(a: &mut Actions, docs: &mut Vec<PaintDocument>, e: LayerEdit)
    requires
        old(docs)@.len() == 4,
        is_layer_option(e, *old(a), old(docs)@),
    ensures
        *final(a) == layer_edited(*old(a), e, old(docs)@),
        docs_edited(old(docs)@, final(docs)@, old(a).paint_map, e),
{
    let at: usize = a.paint_map.index();
    match e {
        LayerEdit::Eye(i) => {
            let shown = docs[at].layers[i].visible;
            docs[at].layers[i].visible = !shown;
        },
        LayerEdit::FillColor(i, c) => {
            docs[at].layers[i].fill = c;
        },
        LayerEdit::FillValue(i, v) => {
            docs[at].layers[i].fill = Rgba::grey(v);
        },
        LayerEdit::Opacity(i, v) => {
            docs[at].layers[i].opacity = v;
        },
        _ => {},
    }
    *a = match e {
        LayerEdit::Channel(i) => Actions {
            paint_map: PaintMap::ALL[i],
            active: docs[i].active,
            keep: true,
            ..*a
        },
        LayerEdit::Add => Actions { add_layer: true, ..*a },
        LayerEdit::Fill => Actions { add_fill: true, ..*a },
        LayerEdit::Delete => Actions { del_layer: true, ..*a },
        LayerEdit::Clear => Actions { clear_layer: true, ..*a },
        LayerEdit::Up => Actions { move_up: true, ..*a },
        LayerEdit::Down => Actions { move_down: true, ..*a },
        LayerEdit::Mask(i) => Actions { mask_click: Some(i), keep: true, ..*a },
        LayerEdit::Select(i) => Actions { active: i, content_click: Some(i), keep: true, ..*a },
        _ => Actions { dirty_layers: true, keep: true, ..*a },
    };
}

/// A row of the segments panel.
#[derive(Clone, Copy, Debug, PartialEq, Eq, Structural)]
pub struct SegmentRow {
    pub id: u16,
    pub active: bool,
    /// The number of faces.
    pub count: usize,
}

/// A row shows a segment.
pub open spec fn is_segment_row(row: SegmentRow, seg: Segmentation, i: int) -> bool {
    let id = seg.segments@[i].id;
    &&& row.id == id
    &&& row.active == (seg.active == Some(id))
    &&& row.count == crate::segment::faces_in(seg.labels(), id).len()
}

/// The rows of the segments panel.
pub fn segments_panel(seg: &Segmentation) -> (rows: Vec<SegmentRow>)
    requires
        seg.wf(),
    ensures
        rows@.len() == seg.segments@.len(),
        forall|i: int|
            0 <= i < rows@.len() ==> is_segment_row(#[trigger] rows@[i], *seg, i),
{
    let mut rows: Vec<SegmentRow> = Vec::new();
    let mut i: usize = 0;
    while i < seg.segments.len()
        invariant
            i <= seg.segments@.len(),
            seg.wf(),
            rows@.len() == i,
            forall|k: int| 0 <= k < i ==> is_segment_row(#[trigger] rows@[k], *seg, k),
        decreases seg.segments@.len() - i,
    {
        let id: u16 = seg.segments[i].id;
        let active = match seg.active {
            Some(x) => x == id,
            None => false,
        };
        let count: usize = seg.face_count(id);
        rows.push(SegmentRow { id, active, count });
        i += 1;
    }
    rows
}

/// A click in the segments panel. Names and colours are edited by `rename_segment` and
/// `recolor_segment`.
#[derive(Clone, Copy, Debug, PartialEq, Eq, Structural)]
pub enum SegmentClick {
    Add,
    Delete,
    Unwrap,
    Select(usize),
}

/// Takes a click in the segments panel down.
pub fn click_segments(a: &mut Actions, seg: &mut Segmentation, e: SegmentClick)
    requires
        old(seg).wf(),
        e matches SegmentClick::Select(i) ==> i < old(seg).segments@.len(),
    ensures
        final(seg).wf(),
        *final(seg) == match e {
            SegmentClick::Select(i) => Segmentation {
                active: Some(old(seg).segments@[i as int].id),
                ..*old(seg)
            },
            _ => *old(seg),
        },
        *final(a) == match e {
            SegmentClick::Add => Actions { add_segment: true, keep: true, ..*old(a) },
            SegmentClick::Delete => Actions { del_segment: true, keep: true, ..*old(a) },
            SegmentClick::Unwrap => Actions { unwrap_uv: true, keep: true, ..*old(a) },
            SegmentClick::Select(_) => Actions { keep: true, ..*old(a) },
        },
{
    *a = match e {
        SegmentClick::Add => Actions { add_segment: true, keep: true, ..*a },
        SegmentClick::Delete => Actions { del_segment: true, keep: true, ..*a },
        SegmentClick::Unwrap => Actions { unwrap_uv: true, keep: true, ..*a },
        SegmentClick::Select(_) => Actions { keep: true, ..*a },
    };
    match e {
        SegmentClick::Select(i) => {
            let id: u16 = seg.segments[i].id;
            seg.active = Some(id);
        },
        _ => {},
    }
}

/// Gives a segment another name.
pub fn rename_segment(a: &mut Actions, seg: &mut Segmentation, i: usize, name: String)
    requires
        old(seg).wf(),
        i < old(seg).segments@.len(),
    ensures
        final(seg).wf(),
        final(seg).segments@ == old(seg).segments@.update(
            i as int,
            crate::segment::Segment { name, ..old(seg).segments@[i as int] },
        ),
        *final(seg) == (Segmentation { segments: final(seg).segments, ..*old(seg) }),
        *final(a) == (Actions { keep: true, ..*old(a) }),
{
    seg.segments[i].name = name;
    a.keep = true;
}

/// Gives a segment another colour.
pub fn recolor_segment(a: &mut Actions, seg: &mut Segmentation, i: usize, color: Rgba)
    requires
        old(seg).wf(),
        i < old(seg).segments@.len(),
    ensures
        final(seg).wf(),
        final(seg).segments@ == old(seg).segments@.update(
            i as int,
            crate::segment::Segment { color, ..old(seg).segments@[i as int] },
        ),
        *final(seg) == (Segmentation { segments: final(seg).segments, ..*old(seg) }),
        *final(a) == (Actions { seg_overlay: true, keep: true, ..*old(a) }),
{
    seg.segments[i].color = color;
    a.seg_overlay = true;
    a.keep = true;
}

/// The name of a mesh in the panels.
pub open spec fn mesh_label(name: Seq<char>, h: Handle) -> Seq<char> {
    if name.len() == 0 {
        "Mesh "@ + crate::text::decimal(h.index as nat) + "/"@ + crate::text::decimal(
            h.generation as nat,
        )
    } else {
        name
    }
}

/// The name of a mesh in the panels; a mesh without a name goes by its handle.
pub fn mesh_name(name: &str, h: Handle) -> (s: String)
    ensures
        s@ == mesh_label(name@, h),
{
    if vstd::string::StrSliceExecFns::unicode_len(name) > 0 {
        return String::from_str(name);
    }
    let mut s = String::new();
    s.append("Mesh ");
    s.append(decimal_string(h.index as u128).as_str());
    s.append("/");
    s.append(decimal_string(h.generation as u128).as_str());
    assert(s@ =~= mesh_label(name@, h));
    s
}

/// A row of the meshes panel.
#[derive(Clone, Copy, Debug, PartialEq, Eq, Structural)]
pub struct MeshRow {
    pub node: Handle,
    pub visible: bool,
}

/// The rows of the meshes panel: the nodes of a list that exist.
pub open spec fn mesh_list(scene: Scene, nodes: Seq<Handle>) -> Seq<MeshRow>
    decreases nodes.len(),
{
    if nodes.len() == 0 {
        Seq::empty()
    } else {
        let before = mesh_list(scene, nodes.drop_last());
        match scene.node(nodes.last()) {
            Some(n) => before.push(MeshRow { node: nodes.last(), visible: n.visible }),
            None => before,
        }
    }
}

/// The rows of the meshes panel.
pub fn meshes_panel(scene: &Scene, nodes: &Vec<Handle>) -> (rows: Vec<MeshRow>)
    ensures
        rows@ == mesh_list(*scene, nodes@),
{
    let mut rows: Vec<MeshRow> = Vec::new();
    let mut i: usize = 0;
    assert(mesh_list(*scene, nodes@.take(0)) =~= Seq::empty());
    while i < nodes.len()
        invariant
            i <= nodes@.len(),
            rows@ == mesh_list(*scene, nodes@.take(i as int)),
        decreases nodes@.len() - i,
    {
        assert(nodes@.take(i + 1).drop_last() =~= nodes@.take(i as int));
        match scene.find_node(nodes[i]) {
            Some(at) => rows.push(MeshRow { node: nodes[i], visible: scene.nodes[at].visible }),
            None => {},
        }
        i += 1;
    }
    assert(nodes@.take(i as int) =~= nodes@);
    rows
}

/// Shows a mesh that is hidden, and hides one that is shown.
pub fn toggle_mesh(a: &mut Actions, scene: &mut Scene, h: Handle)
    ensures
        *final(a) == (Actions { seg_overlay: true, keep: true, ..*old(a) }),
        final(scene).meshes == old(scene).meshes,
        match old(scene).node(h) {
            Some(n) => final(scene).nodes@ == crate::scene::switched(
                old(scene).nodes@,
                set![h],
                !n.visible,
            ),
            None => final(scene).nodes@ == old(scene).nodes@,
        },
{
    match scene.find_node(h) {
        Some(i) => {
            let shown = scene.nodes[i].visible;
            crate::scene::set_node_visible(scene, h, !shown);
        },
        None => {},
    }
    a.seg_overlay = true;
    a.keep = true;
}

/// Which mesh the texture plane shows: the chosen one, or the last if there are fewer.
pub fn uv_mesh_index(chosen: usize, count: usize) -> (i: Option<usize>)
    ensures
        i == if count == 0 {
            None
        } else if chosen < count {
            Some(chosen)
        } else {
            Some((count - 1) as usize)
        },
{
    if count == 0 {
        None
    } else if chosen < count {
        Some(chosen)
    } else {
        Some(count - 1)
    }
}

/// An edit of a layer changes one thing of it: its eye, its filling or its opacity. No other layer
/// and no other stack changes; the stack stays active where it was.
pub proof fn law_layer_edits_change_one_thing(
    before: Seq<PaintDocument>,
    after: Seq<PaintDocument>,
    map: PaintMap,
    e: LayerEdit,
    k: int,
    m: int,
)
    requires
        before.len() == 4,
        docs_edited(before, after, map, e),
        0 <= k < before[map.position()].layers@.len(),
        0 <= m < 4,
        match edited_layer(e) {
            Some(i) => i < before[map.position()].layers@.len(),
            None => true,
        },
    ensures
        ({
            let a = before[map.position()].layers@[k];
            let b = after[map.position()].layers@[k];
            let eye = e == LayerEdit::Eye(k as usize);
            let filled = (e matches LayerEdit::FillColor(i, c) && i == k) || (
            e matches LayerEdit::FillValue(i, v) && i == k);
            let faded = e matches LayerEdit::Opacity(i, v) && i == k;
            &&& after.len() == 4
            &&& m != map.position() ==> after[m] == before[m]
            &&& after[m].active == before[m].active && after[m].paint_target
                == before[m].paint_target && after[m].layers@.len() == before[m].layers@.len()
            &&& k <= usize::MAX && eye ==> b.visible != a.visible
            &&& k <= usize::MAX && !eye ==> b.visible == a.visible
            &&& !filled ==> b.fill == a.fill
            &&& !faded ==> b.opacity == a.opacity
            &&& (e matches LayerEdit::FillColor(i, c) ==> i == k ==> b.fill == c)
            &&& (e matches LayerEdit::FillValue(i, v) ==> i == k ==> b.fill.r == v && b.fill.g == v
                && b.fill.b == v && b.fill.a == 0x3f80_0000)
            &&& (e matches LayerEdit::Opacity(i, v) ==> i == k ==> b.opacity == v)
            &&& b.all_textures() == a.all_textures() && b.kind == a.kind && b.name == a.name
            &&& b.needs_clear == a.needs_clear && b.mask_init == a.mask_init
        }),
{
}

/// Every button of the layers panel asks for its own work alone; an edit of a layer has its stack
/// put together again; the switch of maps goes to the active layer of the other stack.
pub proof fn law_layer_buttons_ask_for_their_own(
    a: Actions,
    e: LayerEdit,
    docs: Seq<PaintDocument>,
)
    requires
        docs.len() == 4,
        is_layer_option(e, a, docs),
    ensures
        ({
            let b = layer_edited(a, e, docs);
            &&& e == LayerEdit::Add ==> b == (Actions { add_layer: true, ..a })
            &&& e == LayerEdit::Fill ==> b == (Actions { add_fill: true, ..a })
            &&& e == LayerEdit::Delete ==> b == (Actions { del_layer: true, ..a })
            &&& e == LayerEdit::Clear ==> b == (Actions { clear_layer: true, ..a })
            &&& e == LayerEdit::Up ==> b == (Actions { move_up: true, ..a })
            &&& e == LayerEdit::Down ==> b == (Actions { move_down: true, ..a })
            &&& (e matches LayerEdit::Mask(i) ==> b == (Actions {
                mask_click: Some(i),
                keep: true,
                ..a
            }))
            &&& (e matches LayerEdit::Select(i) ==> b == (Actions {
                active: i,
                content_click: Some(i),
                keep: true,
                ..a
            }))
            &&& (e matches LayerEdit::Channel(i) ==> b.paint_map.position() == i && b.active
                == docs[i as int].active && b.keep && b == (Actions {
                paint_map: b.paint_map,
                active: b.active,
                keep: true,
                ..a
            }))
            &&& edited_layer(e) is Some ==> b == (Actions { dirty_layers: true, keep: true, ..a })
        }),
{
}

/// An edit of the brush panel changes one thing: a number or the colour of the brush, or one
/// choice. Moving a slider of the brush asks for no other frame.
pub proof fn law_brush_edits_change_one_thing(
    a: Actions,
    b: Brush,
    e: BrushEdit,
    has_fill: bool,
    v: u32,
    c: Rgba,
    i: usize,
    on: bool,
)
    ensures
        brush_after(b, BrushEdit::Color(c)) == (Brush { color: c, ..b }),
        brush_after(b, BrushEdit::Radius(v)) == (Brush { radius: v, ..b }),
        brush_after(b, BrushEdit::Hardness(v)) == (Brush { hardness: v, ..b }),
        brush_after(b, BrushEdit::Opacity(v)) == (Brush { opacity: v, ..b }),
        brush_after(b, e) == b || brush_edited(a, e, has_fill) == a,
        brush_after(b, e).spacing == b.spacing,
        i < 3 ==> brush_edited(a, BrushEdit::SegTool(i), has_fill) == (Actions {
            seg_tool: SegTool::ALL@[i as int],
            keep: true,
            ..a
        }),
        i < 2 ==> brush_edited(a, BrushEdit::SegOp(i), has_fill) == (Actions {
            seg_op: SegOp::ALL@[i as int],
            keep: true,
            ..a
        }),
        i < 2 ==> brush_edited(a, BrushEdit::Tool(i), has_fill) == (Actions {
            tool: PaintTool::ALL@[i as int],
            keep: true,
            ..a
        }),
        brush_edited(a, BrushEdit::Through(on), has_fill) == (Actions {
            rect_through: on,
            keep: true,
            ..a
        }),
        brush_edited(a, BrushEdit::Shape(i), has_fill) == (Actions { shape: i, keep: true, ..a }),
        brush_edited(a, BrushEdit::Open, has_fill) == (Actions { open_model: true, ..a }),
        brush_edited(a, BrushEdit::FillColor(c), true) == (Actions {
            dirty_layers: true,
            keep: true,
            ..a
        }),
        brush_edited(a, BrushEdit::FillValue(v), true) == (Actions {
            dirty_layers: true,
            keep: true,
            ..a
        }),
        new_fill(BrushEdit::FillColor(c)) == Some(c),
        new_fill(BrushEdit::FillValue(v)) == Some(Rgba { r: v, g: v, b: v, a: 0x3f80_0000 }),
{
}

/// A new colour goes to one layer of one stack, and changes nothing but its filling.
pub proof fn law_refilling_changes_one_layer(
    before: Seq<PaintDocument>,
    after: Seq<PaintDocument>,
    map: PaintMap,
    i: int,
    color: Rgba,
    k: int,
    m: int,
)
    requires
        before.len() == 4,
        refilled(before, after, map, i, color),
        0 <= i < before[map.position()].layers@.len(),
        0 <= k < before[map.position()].layers@.len(),
        0 <= m < 4,
    ensures
        m != map.position() ==> after[m] == before[m],
        after[map.position()].layers@[i].fill == color,
        k != i ==> after[map.position()].layers@[k] == before[map.position()].layers@[k],
        after[map.position()].layers@[i].all_textures()
            == before[map.position()].layers@[i].all_textures(),
        after[map.position()].layers@[i].opacity == before[map.position()].layers@[i].opacity,
        after[map.position()].layers@[i].kind == before[map.position()].layers@[i].kind,
{
}

/// The row of a layer shows that layer: it is marked if the layer is active, and its mask if that
/// is painted; its filling can be edited as a colour, or as a brightness on the maps of numbers.
pub proof fn law_rows_show_their_layers(a: Actions, d: PaintDocument, i: int)
    requires
        0 <= i < d.layers@.len(),
        d.layers@.len() <= usize::MAX,
    ensures
        ({
            let r = layer_row(a, d, i);
            let l = d.layers@[i];
            &&& r.index == i && r.visible == l.visible && r.opacity == l.opacity
            &&& r.active <==> a.active == i
            &&& r.mask_selected ==> r.active && d.paint_target == PaintTarget::Mask && l.mask
                is Some
            &&& r.active && d.paint_target == PaintTarget::Mask && l.mask is Some
                ==> r.mask_selected
            &&& l.kind == LayerKind::Paint ==> r.fill == FillEdit::Nothing
            &&& l.kind == LayerKind::Fill && a.paint_map is Albedo ==> r.fill == FillEdit::Color(
                l.fill,
            )
            &&& l.kind == LayerKind::Fill && a.paint_map is Normal ==> r.fill == FillEdit::Flat
            &&& l.kind == LayerKind::Fill && (a.paint_map is Metallic || a.paint_map is Roughness)
                ==> r.fill == FillEdit::Value(l.fill)
        }),
{
}

/// While layers are painted the panel ends with the three sliders of the brush, each under its
/// title and at its own number, and then the rows about the mesh. The colour of the brush is shown
/// before them where it matters: not on the normal map, and not for an eraser of plain paint.
pub proof fn law_the_panel_shows_the_brush(s: BrushState)
    requires
        s.actions.mode == AppMode::Paint,
    ensures
        ({
            let rows = brush_rows(s);
            let n = rows.len() - mesh_rows(s).len();
            let colored = s.actions.paint_map != PaintMap::Normal && (s.actions.tool
                == PaintTool::Paint || s.target == PaintTarget::Mask || s.fill is Some);
            &&& rows[3] == (BrushRow::Tools { brush: s.actions.tool })
            &&& rows[n - 6] == BrushRow::Text(BrushText::Radius)
            &&& rows[n - 5] == (BrushRow::Radius { value: s.brush.radius })
            &&& rows[n - 4] == BrushRow::Text(BrushText::Hardness)
            &&& rows[n - 3] == (BrushRow::Hardness { value: s.brush.hardness })
            &&& rows[n - 2] == BrushRow::Text(BrushText::Opacity)
            &&& rows[n - 1] == (BrushRow::Opacity { value: s.brush.opacity })
            &&& rows.skip(n) == mesh_rows(s)
            &&& colored ==> rows[n - 7] == (BrushRow::Color { color: s.brush.color })
            &&& !colored ==> rows[n - 7] is Text
            &&& s.fill is Some && s.actions.paint_map == PaintMap::Albedo ==> rows[6] == (
            BrushRow::FillColor { color: s.fill->0 })
            &&& s.fill is Some && (s.actions.paint_map == PaintMap::Metallic || s.actions.paint_map
                == PaintMap::Roughness) ==> rows[6] == (BrushRow::FillValue { color: s.fill->0 })
        }),
{
    let rows = brush_rows(s);
    let n = rows.len() - mesh_rows(s).len();
    assert(rows.skip(n) =~= mesh_rows(s));
}

/// The rows about the mesh offer the sphere and the cube, and the model where there is one, with
/// the shape that is shown chosen.
pub proof fn law_the_panel_offers_the_shapes(s: BrushState)
    ensures
        ({
            let rows = mesh_rows(s);
            let n: usize = if s.has_model {
                3
            } else {
                2
            };
            &&& rows[2] == BrushRow::Open
            &&& rows[3] is Shapes && rows[3]->count == n
            &&& s.actions.shape < n ==> rows[3]->selected == s.actions.shape
            &&& s.actions.shape >= n ==> rows[3]->selected == n - 1
            &&& (rows.len() == 5 && rows[4] == BrushRow::ModelName) <==> s.has_model && s.named
            &&& rows.len() == 4 || rows.len() == 5
        }),
{
}

/// While segments are worked on the panel shows the tool and the action, the switch of a rectangle
/// only for the rectangle, and the radius only for the brush.
pub proof fn law_the_panel_shows_the_segment_tools(s: BrushState)
    requires
        s.actions.mode == AppMode::Segment,
    ensures
        ({
            let rows = brush_rows(s);
            let n = rows.len() - mesh_rows(s).len();
            &&& rows[3] == (BrushRow::SegTools { tool: s.actions.seg_tool })
            &&& rows[5] == (BrushRow::SegOps { op: s.actions.seg_op })
            &&& s.actions.seg_tool == SegTool::Click ==> n == 6
            &&& s.actions.seg_tool == SegTool::Rect ==> n == 7 && rows[6] == (BrushRow::Through {
                on: s.actions.rect_through,
            })
            &&& s.actions.seg_tool == SegTool::Brush ==> n == 8 && rows[7] == (BrushRow::Radius {
                value: s.brush.radius,
            })
        }),
{
}

/// The pictures of the stamps follow each other from the slot 16 on, those of the normal stamps
/// from the slot 48 on, and the one that is chosen is marked.
pub proof fn law_stamps_have_their_slots(normals: bool, count: nat, selected: usize, i: int)
    requires
        0 <= i < count,
        count + 48 <= u32::MAX,
    ensures
        stamp_cells(normals, count, selected).len() == count,
        stamp_cells(false, count, selected)[i].slot == 16 + i,
        stamp_cells(true, count, selected)[i].slot == 48 + i,
        stamp_cells(normals, count, selected)[i].selected <==> i == selected,
{
}

/// The meshes panel lists the nodes of two lists one after the other, each that is in the scene
/// with its own eye.
pub proof fn law_meshes_are_listed_in_order(
    scene: Scene,
    a: Seq<Handle>,
    b: Seq<Handle>,
    h: Handle,
)
    ensures
        mesh_list(scene, a + b) == mesh_list(scene, a) + mesh_list(scene, b),
        scene.node(h) is Some ==> mesh_list(scene, seq![h]) == seq![
            MeshRow { node: h, visible: scene.node(h)->0.visible },
        ],
        scene.node(h) is None ==> mesh_list(scene, seq![h]).len() == 0,
    decreases b.len(),
{
    reveal_with_fuel(mesh_list, 2);
    assert(seq![h].drop_last() =~= Seq::<Handle>::empty());
    assert(mesh_list(scene, Seq::<Handle>::empty()) =~= Seq::empty());
    if b.len() == 0 {
        assert(a + b =~= a);
        assert(mesh_list(scene, a) + mesh_list(scene, b) =~= mesh_list(scene, a));
    } else {
        law_meshes_are_listed_in_order(scene, a, b.drop_last(), h);
        assert((a + b).drop_last() =~= a + b.drop_last());
        assert((a + b).last() == b.last());
        assert(mesh_list(scene, a + b) =~= mesh_list(scene, a) + mesh_list(scene, b));
    }
}

} // verus!
